//! The trace of the CPU chip.

use vstd::prelude::*;
use crate::babybear;
use crate::babybear::Felt;
use crate::memory;
use crate::memory::{
    ByteLookupEvent, MemoryAccessCols, MemoryReadRecord, MemoryReadWriteCols, MemoryRecordEnum,
};
use crate::reducer::shorter;

verus! {

/// The number of the system call that halts.
pub const HALT_SYSCALL_ID: u32 = 0;

/// An instruction: its operands and what class of instruction it is.
#[derive(Clone, Copy, PartialEq, Eq, Structural, Debug)]
pub struct Instruction {
    pub opcode: u32,
    pub op_a: u8,
    pub op_b: u32,
    pub op_c: u32,
    pub imm_b: bool,
    pub imm_c: bool,
    pub is_memory_load: bool,
    pub is_memory_store: bool,
    pub is_branch: bool,
    pub is_ecall: bool,
}

impl Instruction {
    /// Whether the chip of the instruction has to know shard and time.
    pub open spec fn sends_time(&self) -> bool {
        self.is_memory_load || self.is_memory_store || self.is_ecall
    }
}

/// One executed instruction.
#[derive(Clone, Copy, PartialEq, Eq, Structural, Debug)]
pub struct CpuEvent {
    pub clk: u32,
    pub pc: u32,
    pub next_pc: u32,
    pub a: u32,
    pub a_record: Option<MemoryRecordEnum>,
    pub b: u32,
    pub b_record: Option<MemoryRecordEnum>,
    pub c: u32,
    pub c_record: Option<MemoryRecordEnum>,
}

/// Whether an access comes after the one before it.
pub open spec fn record_ok(record: Option<MemoryRecordEnum>) -> bool {
    record matches Some(r) ==> memory::in_order(r.previous(), r.current())
}

/// Whether an access, where it is a read, comes after the one before it.
pub open spec fn read_ok(record: Option<MemoryRecordEnum>) -> bool {
    record matches Some(MemoryRecordEnum::Read(_)) ==> record_ok(record)
}

impl CpuEvent {
    /// Every access that a row holds comes after the one before it.
    pub open spec fn well_formed(&self) -> bool {
        record_ok(self.a_record) && read_ok(self.b_record) && read_ok(self.c_record)
    }

    /// Every access that is checked comes after the one before it: that of the first operand is
    /// not checked for a system call.
    pub open spec fn checkable(&self, instruction: Instruction) -> bool {
        &&& !instruction.is_ecall ==> record_ok(self.a_record)
        &&& read_ok(self.b_record)
        &&& read_ok(self.c_record)
    }
}

/// The range checks of an access, where there is one.
pub open spec fn record_checks(record: Option<MemoryRecordEnum>) -> Seq<ByteLookupEvent> {
    match record {
        Some(r) => memory::gap_checks(r.previous(), r.current()),
        None => Seq::empty(),
    }
}

/// The range checks of an access, where it is a read.
pub open spec fn read_checks(record: Option<MemoryRecordEnum>) -> Seq<ByteLookupEvent> {
    match record {
        Some(MemoryRecordEnum::Read(_)) => record_checks(record),
        _ => Seq::empty(),
    }
}

/// The range checks of shard and time.
pub open spec fn time_checks(shard: u32, clk: u32) -> Seq<ByteLookupEvent> {
    seq![
        memory::u16_check(shard as u16),
        memory::u16_check(memory::low_limb(clk)),
        memory::u8_check(0, memory::high_limb(clk)),
    ]
}

/// The value of the first operand after the instruction.
pub open spec fn result_value(event: CpuEvent) -> u32 {
    match event.a_record {
        Some(r) => r.current().value,
        None => event.a,
    }
}

/// The range checks that an executed instruction asks for. Those of the first operand of a system
/// call are left to the chip of system calls.
pub open spec fn event_lookups(event: CpuEvent, shard: u32, instruction: Instruction) -> Seq<
    ByteLookupEvent,
> {
    time_checks(shard, event.clk) + (if instruction.is_ecall {
        Seq::empty()
    } else {
        record_checks(event.a_record)
    }) + read_checks(event.b_record) + read_checks(event.c_record) + memory::word_checks(
        result_value(event),
    )
}

/// The columns of an instruction.
#[derive(Clone, Copy, PartialEq, Eq, Debug)]
pub struct InstructionCols {
    pub opcode: Felt,
    pub op_a: Felt,
    pub op_b: [Felt; 4],
    pub op_c: [Felt; 4],
    pub op_a_0: Felt,
    pub imm_b: Felt,
    pub imm_c: Felt,
}

/// A row of the CPU table.
#[derive(Clone, Copy, PartialEq, Eq, Debug)]
pub struct CpuCols {
    pub shard: Felt,
    pub clk_16bit_limb: Felt,
    pub clk_8bit_limb: Felt,
    pub shard_to_send: Felt,
    pub clk_to_send: Felt,
    pub pc: Felt,
    pub next_pc: Felt,
    pub instruction: InstructionCols,
    pub op_a_immutable: Felt,
    pub is_memory: Felt,
    pub is_syscall: Felt,
    pub is_halt: Felt,
    pub num_extra_cycles: Felt,
    pub op_a_access: MemoryReadWriteCols,
    pub op_b_access: MemoryAccessCols,
    pub op_c_access: MemoryAccessCols,
    pub is_real: Felt,
}

/// One for true, zero for false.
pub open spec fn flag(b: bool) -> Felt {
    Felt {
        value: if b {
            1
        } else {
            0
        },
    }
}

fn flag_of(b: bool) -> (r: Felt)
    ensures
        r == flag(b),
{
    Felt {
        value: if b {
            1
        } else {
            0
        },
    }
}

impl InstructionCols {
    pub open spec fn holds(&self, instruction: Instruction) -> bool {
        &&& self.opcode == babybear::felt(instruction.opcode as int)
        &&& self.op_a == babybear::felt(instruction.op_a as int)
        &&& self.op_b@ == memory::word(instruction.op_b)
        &&& self.op_c@ == memory::word(instruction.op_c)
        &&& self.op_a_0 == flag(instruction.op_a == 0)
        &&& self.imm_b == flag(instruction.imm_b)
        &&& self.imm_c == flag(instruction.imm_c)
    }

    pub open spec fn is_padding(&self) -> bool {
        &&& self.opcode == flag(false)
        &&& self.op_a == flag(false)
        &&& self.op_b@ == memory::word(0)
        &&& self.op_c@ == memory::word(0)
        &&& self.op_a_0 == flag(false)
        &&& self.imm_b == flag(true)
        &&& self.imm_c == flag(true)
    }

    /// Fills the columns with an instruction.
    pub fn populate(instruction: &Instruction) -> (r: Self)
        ensures
            r.holds(*instruction),
    {
        InstructionCols {
            opcode: memory::felt_of(instruction.opcode),
            op_a: memory::felt_of(instruction.op_a as u32),
            op_b: memory::word_of(instruction.op_b),
            op_c: memory::word_of(instruction.op_c),
            op_a_0: flag_of(instruction.op_a == 0),
            imm_b: flag_of(instruction.imm_b),
            imm_c: flag_of(instruction.imm_c),
        }
    }
}

/// Whether the columns of the first operand hold an access, or else the operand alone.
pub open spec fn holds_operand(
    cols: MemoryReadWriteCols,
    record: Option<MemoryRecordEnum>,
    value: u32,
) -> bool {
    match record {
        Some(r) => cols.holds(r.previous(), r.current()),
        None => cols.holds_value(value),
    }
}

/// Whether the columns of another operand hold a read, or else the operand alone.
pub open spec fn holds_read(
    cols: MemoryAccessCols,
    record: Option<MemoryRecordEnum>,
    value: u32,
) -> bool {
    match record {
        Some(MemoryRecordEnum::Read(r)) => cols.holds(record->0.previous(), record->0.current()),
        _ => cols.holds_value(value),
    }
}

impl CpuCols {
    /// Whether the row holds an executed instruction.
    pub open spec fn holds(&self, event: CpuEvent, shard: u32, instruction: Instruction) -> bool {
        &&& self.shard == babybear::felt(shard as int)
        &&& self.clk_16bit_limb == babybear::felt(memory::low_limb(event.clk) as int)
        &&& self.clk_8bit_limb == babybear::felt(memory::high_limb(event.clk) as int)
        &&& self.shard_to_send == if instruction.sends_time() {
            self.shard
        } else {
            flag(false)
        }
        &&& self.clk_to_send == if instruction.sends_time() {
            babybear::felt(event.clk as int)
        } else {
            flag(false)
        }
        &&& self.pc == babybear::felt(event.pc as int)
        &&& self.next_pc == babybear::felt(event.next_pc as int)
        &&& self.instruction.holds(instruction)
        &&& self.op_a_immutable == flag(instruction.is_memory_store || instruction.is_branch)
        &&& self.is_memory == flag(instruction.is_memory_load || instruction.is_memory_store)
        &&& self.is_syscall == flag(instruction.is_ecall)
        &&& self.is_halt == flag(
            instruction.is_ecall && self.op_a_access.prev_value[0].value == HALT_SYSCALL_ID,
        )
        &&& self.num_extra_cycles == if instruction.is_ecall {
            self.op_a_access.prev_value[2]
        } else {
            flag(false)
        }
        &&& holds_operand(self.op_a_access, event.a_record, event.a)
        &&& holds_read(self.op_b_access, event.b_record, event.b)
        &&& holds_read(self.op_c_access, event.c_record, event.c)
        &&& self.is_real == flag(true)
    }

    /// Whether the row is one of those that fill up the table.
    pub open spec fn is_padding(&self) -> bool {
        &&& self.shard == flag(false)
        &&& self.clk_16bit_limb == flag(false)
        &&& self.clk_8bit_limb == flag(false)
        &&& self.shard_to_send == flag(false)
        &&& self.clk_to_send == flag(false)
        &&& self.pc == flag(false)
        &&& self.next_pc == flag(false)
        &&& self.instruction.is_padding()
        &&& self.op_a_immutable == flag(false)
        &&& self.is_memory == flag(false)
        &&& self.is_syscall == flag(true)
        &&& self.is_halt == flag(false)
        &&& self.num_extra_cycles == flag(false)
        &&& self.op_a_access.holds_value(0)
        &&& self.op_b_access.holds_value(0)
        &&& self.op_c_access.holds_value(0)
        &&& self.is_real == flag(false)
    }

    /// A row that fills up the table.
    pub fn padding() -> (r: Self)
        ensures
            r.is_padding(),
    {
        let zero = flag_of(false);
        let one = flag_of(true);
        CpuCols {
            shard: zero,
            clk_16bit_limb: zero,
            clk_8bit_limb: zero,
            shard_to_send: zero,
            clk_to_send: zero,
            pc: zero,
            next_pc: zero,
            instruction: InstructionCols {
                opcode: zero,
                op_a: zero,
                op_b: memory::word_of(0),
                op_c: memory::word_of(0),
                op_a_0: zero,
                imm_b: one,
                imm_c: one,
            },
            op_a_immutable: zero,
            is_memory: zero,
            is_syscall: one,
            is_halt: zero,
            num_extra_cycles: zero,
            op_a_access: MemoryReadWriteCols::of_value(0),
            op_b_access: MemoryAccessCols::of_value(0),
            op_c_access: MemoryAccessCols::of_value(0),
            is_real: zero,
        }
    }
}

/// Whether rows are the table of executed instructions, each in its place, and filled up after them.
pub open spec fn is_table(
    rows: Seq<CpuCols>,
    events: Seq<CpuEvent>,
    instructions: Seq<Instruction>,
    shard: u32,
) -> bool {
    forall|i: int|
        0 <= i < rows.len() ==> if i < events.len() {
            (#[trigger] rows[i]).holds(events[i], shard, instructions[i])
        } else {
            rows[i].is_padding()
        }
}

/// The chip of the CPU.
pub struct CpuChip;

impl CpuChip {
    /// The limbs of the time, and the range checks of shard and time.
    pub fn populate_shard_clk(event: &CpuEvent, out: &mut Vec<ByteLookupEvent>, shard: u32) -> (r: (
        Felt,
        Felt,
        Felt,
    ))
        ensures
            r.0 == babybear::felt(shard as int),
            r.1 == babybear::felt(memory::low_limb(event.clk) as int),
            r.2 == babybear::felt(memory::high_limb(event.clk) as int),
            final(out)@ == old(out)@ + time_checks(shard, event.clk),
    {
        let (low, high) = memory::limbs(event.clk);
        memory::add_u16_range_check(out, shard as u16);
        memory::add_u16_range_check(out, low);
        memory::add_u8_range_check(out, 0, high);
        assert(out@ =~= old(out)@ + time_checks(shard, event.clk));
        (memory::felt_of(shard), memory::felt_of(low as u32), memory::felt_of(high as u32))
    }

    /// The range checks of an access.
    pub fn collect_access_lookups(record: &MemoryRecordEnum, out: &mut Vec<ByteLookupEvent>)
        requires
            memory::in_order(record.previous(), record.current()),
        ensures
            final(out)@ == old(out)@ + memory::gap_checks(record.previous(), record.current()),
    {
        memory::add_gap_checks(out, record.previous_record(), record.current_record());
    }

    /// The range checks of a read.
    pub fn collect_read_access_lookups(record: &MemoryReadRecord, out: &mut Vec<ByteLookupEvent>)
        requires
            memory::in_order(
                MemoryRecordEnum::Read(*record).previous(),
                MemoryRecordEnum::Read(*record).current(),
            ),
        ensures
            final(out)@ == old(out)@ + memory::gap_checks(
                MemoryRecordEnum::Read(*record).previous(),
                MemoryRecordEnum::Read(*record).current(),
            ),
    {
        let (prev_t, cur_t): (u32, u32) = if record.prev_shard == record.shard {
            (record.prev_timestamp, record.timestamp)
        } else {
            (record.prev_shard, record.shard)
        };
        let (low, high) = memory::limbs(cur_t - prev_t - 1);
        memory::add_u16_range_check(out, low);
        memory::add_u8_range_check(out, 0, high);
        assert(out@ =~= old(out)@ + memory::gap_checks(
            MemoryRecordEnum::Read(*record).previous(),
            MemoryRecordEnum::Read(*record).current(),
        ));
    }

    /// The range checks of an executed instruction, without the row.
    pub fn collect_byte_lookups(
        event: &CpuEvent,
        out: &mut Vec<ByteLookupEvent>,
        shard: u32,
        instruction: &Instruction,
    )
        requires
            event.checkable(*instruction),
        ensures
            final(out)@ == old(out)@ + event_lookups(*event, shard, *instruction),
    {
        let (low, high) = memory::limbs(event.clk);
        memory::add_u16_range_check(out, shard as u16);
        memory::add_u16_range_check(out, low);
        memory::add_u8_range_check(out, 0, high);
        if let Some(record) = event.a_record {
            if !instruction.is_ecall {
                Self::collect_access_lookups(&record, out);
            }
        }
        if let Some(MemoryRecordEnum::Read(record)) = event.b_record {
            Self::collect_read_access_lookups(&record, out);
        }
        if let Some(MemoryRecordEnum::Read(record)) = event.c_record {
            Self::collect_read_access_lookups(&record, out);
        }
        let a_value: u32 = match event.a_record {
            Some(r) => r.current_record().value,
            None => event.a,
        };
        memory::add_word_checks(out, a_value);
        assert(out@ =~= old(out)@ + event_lookups(*event, shard, *instruction));
    }

    /// The columns of the operands, and the range checks of their accesses.
    fn populate_accesses(
        event: &CpuEvent,
        out: &mut Vec<ByteLookupEvent>,
        instruction: &Instruction,
    ) -> (r: (MemoryReadWriteCols, MemoryAccessCols, MemoryAccessCols))
        requires
            event.well_formed(),
        ensures
            holds_operand(r.0, event.a_record, event.a),
            holds_read(r.1, event.b_record, event.b),
            holds_read(r.2, event.c_record, event.c),
            final(out)@ == old(out)@ + (if instruction.is_ecall {
                Seq::empty()
            } else {
                record_checks(event.a_record)
            }) + read_checks(event.b_record) + read_checks(event.c_record),
    {
        let mut op_a_access = MemoryReadWriteCols::of_value(event.a);
        let mut op_b_access = MemoryAccessCols::of_value(event.b);
        let mut op_c_access = MemoryAccessCols::of_value(event.c);
        if let Some(record) = event.a_record {
            let prev = record.previous_record();
            let cur = record.current_record();
            if instruction.is_ecall {
                let mut dropped: Vec<ByteLookupEvent> = Vec::new();
                op_a_access.populate(prev, cur, &mut dropped);
            } else {
                op_a_access.populate(prev, cur, out);
            }
        }
        if let Some(MemoryRecordEnum::Read(read)) = event.b_record {
            let record = MemoryRecordEnum::Read(read);
            op_b_access.populate(record.previous_record(), record.current_record(), out);
        }
        if let Some(MemoryRecordEnum::Read(read)) = event.c_record {
            let record = MemoryRecordEnum::Read(read);
            op_c_access.populate(record.previous_record(), record.current_record(), out);
        }
        assert(out@ =~= old(out)@ + (if instruction.is_ecall {
            Seq::empty()
        } else {
            record_checks(event.a_record)
        }) + read_checks(event.b_record) + read_checks(event.c_record));
        (op_a_access, op_b_access, op_c_access)
    }

    /// Adds the checks of the bytes that columns hold.
    fn check_value(cols: &MemoryAccessCols, out: &mut Vec<ByteLookupEvent>, Ghost(x): Ghost<u32>)
        requires
            cols.value@ == memory::word(x),
        ensures
            final(out)@ == old(out)@ + memory::word_checks(x),
    {
        let bytes: [Felt; 4] = cols.value;
        assert(bytes@[0].value == memory::le_bytes(x)[0] && bytes@[1].value == memory::le_bytes(
            x,
        )[1] && bytes@[2].value == memory::le_bytes(x)[2] && bytes@[3].value == memory::le_bytes(
            x,
        )[3]);
        memory::add_u8_range_check(out, bytes[0].value as u8, bytes[1].value as u8);
        memory::add_u8_range_check(out, bytes[2].value as u8, bytes[3].value as u8);
        assert(out@ =~= old(out)@ + memory::word_checks(x));
    }

    /// The row of an executed instruction, and the range checks that it asks for.
    pub fn event_to_row(
        event: &CpuEvent,
        out: &mut Vec<ByteLookupEvent>,
        shard: u32,
        instruction: &Instruction,
    ) -> (r: CpuCols)
        requires
            event.well_formed(),
        ensures
            r.holds(*event, shard, *instruction),
            final(out)@ == old(out)@ + event_lookups(*event, shard, *instruction),
    {
        let (shard_col, low, high) = Self::populate_shard_clk(event, out, shard);
        let sends_time: bool = instruction.is_memory_load || instruction.is_memory_store
            || instruction.is_ecall;
        let (op_a_access, op_b_access, op_c_access) = Self::populate_accesses(
            event,
            out,
            instruction,
        );
        let is_halt: bool = instruction.is_ecall && op_a_access.prev_value[0].value
            == HALT_SYSCALL_ID;
        let num_extra_cycles: Felt = if instruction.is_ecall {
            op_a_access.prev_value[2]
        } else {
            flag_of(false)
        };
        Self::check_value(&op_a_access.access, out, Ghost(result_value(*event)));
        assert(out@ =~= old(out)@ + event_lookups(*event, shard, *instruction));
        CpuCols {
            shard: shard_col,
            clk_16bit_limb: low,
            clk_8bit_limb: high,
            shard_to_send: if sends_time {
                shard_col
            } else {
                flag_of(false)
            },
            clk_to_send: if sends_time {
                memory::felt_of(event.clk)
            } else {
                flag_of(false)
            },
            pc: memory::felt_of(event.pc),
            next_pc: memory::felt_of(event.next_pc),
            instruction: InstructionCols::populate(instruction),
            op_a_immutable: flag_of(instruction.is_memory_store || instruction.is_branch),
            is_memory: flag_of(instruction.is_memory_load || instruction.is_memory_store),
            is_syscall: flag_of(instruction.is_ecall),
            is_halt: flag_of(is_halt),
            num_extra_cycles,
            op_a_access,
            op_b_access,
            op_c_access,
            is_real: flag_of(true),
        }
    }

    /// The rows of the table: one for each executed instruction, and as many more as fill it up.
    /// Instruction `i` is the one that event `i` executed.
    pub fn generate_trace(
        events: &Vec<CpuEvent>,
        instructions: &Vec<Instruction>,
        shard: u32,
        shape_height: Option<usize>,
    ) -> (r: Vec<CpuCols>)
        requires
            instructions@.len() == events@.len(),
            events@.len() <= usize::MAX / 2,
            forall|i: int| 0 <= i < events@.len() ==> (#[trigger] events@[i]).well_formed(),
        ensures
            memory::is_height(r@.len(), events@.len(), shape_height),
            is_table(r@, events@, instructions@, shard),
    {
        let rows: usize = memory::padded_rows(events.len(), shape_height);
        let mut r: Vec<CpuCols> = Vec::new();
        let mut i: usize = 0;
        while i < rows
            invariant
                i <= rows,
                r@.len() == i,
                instructions@.len() == events@.len(),
                forall|k: int| 0 <= k < events@.len() ==> (#[trigger] events@[k]).well_formed(),
                forall|k: int|
                    0 <= k < i ==> if k < events@.len() {
                        (#[trigger] r@[k]).holds(events@[k], shard, instructions@[k])
                    } else {
                        r@[k].is_padding()
                    },
            decreases rows - i,
        {
            let ghost before = r@;
            if i >= events.len() {
                let row = CpuCols::padding();
                r.push(row);
            } else {
                let mut dropped: Vec<ByteLookupEvent> = Vec::new();
                let row = Self::event_to_row(&events[i], &mut dropped, shard, &instructions[i]);
                r.push(row);
            }
            assert forall|k: int| 0 <= k < i + 1 implies if k < events@.len() {
                (#[trigger] r@[k]).holds(events@[k], shard, instructions@[k])
            } else {
                r@[k].is_padding()
            } by {
                if k < i {
                    assert(r@[k] == before[k]);
                }
            }
            i = i + 1;
        }
        r
    }

    /// How many events each of some processors takes: an equal share, and at least one.
    pub open spec fn share_of(events: usize, processors: usize) -> usize {
        if events < processors {
            1
        } else {
            events / processors
        }
    }

    /// How many events each processor takes, of those that there are.
    pub fn share(events: usize, processors: usize) -> (r: usize)
        requires
            processors > 0,
        ensures
            r >= 1,
            r == Self::share_of(events, processors),
    {
        let share: usize = events / processors;
        proof {
            if events < processors {
                vstd::arithmetic::div_mod::lemma_basic_div(events as int, processors as int);
            } else {
                vstd::arithmetic::div_mod::lemma_div_non_zero(events as int, processors as int);
            }
        }
        if share < 1 {
            1
        } else {
            share
        }
    }

    /// How many events each processor of this machine takes. How many processors there are is not
    /// stated.
    pub fn chunk_size(events: usize) -> (r: usize)
        ensures
            exists|processors: usize|
                processors > 0 && r == #[trigger] Self::share_of(events, processors),
    {
        let cpus: usize = num_cpus_get();
        let r: usize = Self::share(events, cpus);
        assert(r == Self::share_of(events, cpus));
        r
    }

    /// The range checks of the first `n` of some executed instructions.
    pub open spec fn all_lookups(
        events: Seq<CpuEvent>,
        instructions: Seq<Instruction>,
        shard: u32,
        n: nat,
    ) -> Seq<ByteLookupEvent>
        decreases n,
    {
        if n == 0 {
            Seq::empty()
        } else {
            Self::all_lookups(events, instructions, shard, (n - 1) as nat) + event_lookups(
                events[n - 1],
                shard,
                instructions[n - 1],
            )
        }
    }

    /// The range checks of chunk `c`, of as many executed instructions as are left for it.
    pub open spec fn chunk_lookups(
        events: Seq<CpuEvent>,
        instructions: Seq<Instruction>,
        shard: u32,
        chunk_size: nat,
        c: nat,
    ) -> Seq<ByteLookupEvent> {
        let from = (c * chunk_size) as int;
        let to = shorter((c + 1) * chunk_size, events.len()) as int;
        Self::all_lookups(
            events.subrange(from, to),
            instructions.subrange(from, to),
            shard,
            (to - from) as nat,
        )
    }

    /// The range checks of executed instructions, taken together in chunks of the given size.
    /// Chunks of any size give the same checks in the same order.
    pub fn generate_dependencies(
        events: &Vec<CpuEvent>,
        instructions: &Vec<Instruction>,
        shard: u32,
        chunk_size: usize,
    ) -> (r: Vec<Vec<ByteLookupEvent>>)
        requires
            chunk_size > 0,
            instructions@.len() == events@.len(),
            forall|i: int|
                0 <= i < events@.len() ==> (#[trigger] events@[i]).checkable(
                    instructions@[i],
                ),
        ensures
            concat(r@, r@.len()) == Self::all_lookups(
                events@,
                instructions@,
                shard,
                events@.len(),
            ),
            r@.len() == crate::permutation::ceil_div(events@.len(), chunk_size as nat),
            forall|c: int|
                0 <= c < r@.len() ==> (#[trigger] r@[c])@ == Self::chunk_lookups(
                    events@,
                    instructions@,
                    shard,
                    chunk_size as nat,
                    c as nat,
                ),
    {
        let n: usize = events.len();
        let mut r: Vec<Vec<ByteLookupEvent>> = Vec::new();
        let mut start: usize = 0;
        proof {
            vstd::arithmetic::div_mod::lemma_small_mod(0, chunk_size as nat);
            vstd::arithmetic::div_mod::lemma_basic_div(0, chunk_size as int);
        }
        while start < n
            invariant
                start <= n,
                chunk_size > 0,
                n == events@.len(),
                instructions@.len() == events@.len(),
                forall|i: int|
                    0 <= i < events@.len() ==> (#[trigger] events@[i]).checkable(instructions@[i]),
                forall|c: int|
                    0 <= c < r@.len() ==> (#[trigger] r@[c])@ == Self::chunk_lookups(
                        events@,
                        instructions@,
                        shard,
                        chunk_size as nat,
                        c as nat,
                    ),
                concat(r@, r@.len()) == Self::all_lookups(
                    events@,
                    instructions@,
                    shard,
                    start as nat,
                ),
                start < n ==> start == r@.len() * chunk_size,
                start == n ==> r@.len() == crate::permutation::ceil_div(
                    n as nat,
                    chunk_size as nat,
                ),
            decreases n - start,
        {
            let end: usize = if n - start < chunk_size {
                n
            } else {
                start + chunk_size
            };
            let ghost some_events = events@.subrange(start as int, end as int);
            let ghost some_instructions = instructions@.subrange(start as int, end as int);
            let mut chunk: Vec<ByteLookupEvent> = Vec::new();
            let mut i: usize = start;
            assert(concat(r@, r@.len()) + chunk@ =~= concat(r@, r@.len()));
            while i < end
                invariant
                    start <= i <= end,
                    end <= n,
                    n == events@.len(),
                    instructions@.len() == events@.len(),
                    forall|k: int|
                        0 <= k < events@.len() ==> (#[trigger] events@[k]).checkable(
                            instructions@[k],
                        ),
                    some_events == events@.subrange(start as int, end as int),
                    some_instructions == instructions@.subrange(start as int, end as int),
                    chunk@ == Self::all_lookups(
                        some_events,
                        some_instructions,
                        shard,
                        (i - start) as nat,
                    ),
                    concat(r@, r@.len()) + chunk@ == Self::all_lookups(
                        events@,
                        instructions@,
                        shard,
                        i as nat,
                    ),
                decreases end - i,
            {
                let ghost before = chunk@;
                Self::collect_byte_lookups(&events[i], &mut chunk, shard, &instructions[i]);
                assert(some_events[i - start] == events@[i as int]);
                assert(some_instructions[i - start] == instructions@[i as int]);
                i = i + 1;
                assert(chunk@ =~= before + event_lookups(
                    events@[i - 1],
                    shard,
                    instructions@[i - 1],
                ));
                assert(concat(r@, r@.len()) + chunk@ =~= (concat(r@, r@.len()) + before)
                    + event_lookups(events@[i - 1], shard, instructions@[i - 1]));
            }
            let ghost r0 = r@;
            let ghost chunk0 = chunk@;
            r.push(chunk);
            proof {
                lemma_concat_prefix(r@, r0, r0.len());
                let c = chunk_size as int;
                let q = r0.len() as int;
                assert((q + 1) * c == q * c + c) by (nonlinear_arith);
                assert(chunk0 == Self::chunk_lookups(
                    events@,
                    instructions@,
                    shard,
                    chunk_size as nat,
                    q as nat,
                ));
                if end == n {
                    lemma_chunk_count(n as nat, chunk_size as nat, q as nat);
                }
            }
            start = end;
        }
        r
    }

    /// Whether the chip is part of a shard: its shape decides where there is one.
    pub fn included(shape_includes: Option<bool>, contains_cpu: bool) -> (r: bool)
        ensures
            r == match shape_includes {
                Some(b) => b,
                None => contains_cpu,
            },
    {
        match shape_includes {
            Some(b) => b,
            None => contains_cpu,
        }
    }
}

/// The first `n` chunks, one after the other.
pub open spec fn concat(chunks: Seq<Vec<ByteLookupEvent>>, n: nat) -> Seq<ByteLookupEvent>
    decreases n,
{
    if n == 0 {
        Seq::empty()
    } else {
        concat(chunks, (n - 1) as nat) + chunks[n - 1]@
    }
}

proof fn lemma_concat_prefix(a: Seq<Vec<ByteLookupEvent>>, b: Seq<Vec<ByteLookupEvent>>, n: nat)
    requires
        n <= a.len(),
        n <= b.len(),
        forall|i: int| 0 <= i < n ==> a[i] == b[i],
    ensures
        concat(a, n) == concat(b, n),
    decreases n,
{
    if n > 0 {
        lemma_concat_prefix(a, b, (n - 1) as nat);
    }
}

proof fn lemma_chunk_count(n: nat, c: nat, q: nat)
    requires
        c > 0,
        q * c < n <= q * c + c,
    ensures
        crate::permutation::ceil_div(n, c) == q + 1,
{
    let r = n - q * c;
    vstd::arithmetic::div_mod::lemma_fundamental_div_mod(n as int, c as int);
    if r == c {
        assert(n == (q + 1) * c) by (nonlinear_arith)
            requires
                n == q * c + c,
        ;
        vstd::arithmetic::div_mod::lemma_div_multiples_vanish((q + 1) as int, c as int);
        vstd::arithmetic::div_mod::lemma_mod_multiples_basic((q + 1) as int, c as int);
        vstd::arithmetic::mul::lemma_mul_is_commutative((q + 1) as int, c as int);
    } else {
        vstd::arithmetic::mul::lemma_mul_is_commutative(q as int, c as int);
        vstd::arithmetic::div_mod::lemma_fundamental_div_mod_converse(
            n as int,
            c as int,
            q as int,
            r as int,
        );
    }
}

/// Calls `num_cpus::get`: the number of processors, of which there is at least one.
#[verifier::external_body]
fn num_cpus_get() -> (r: usize)
    ensures
        r >= 1,
{
    num_cpus::get()
}

/// Whether columns show an operand: where the event has a read of it, that read; else the operand
/// alone, and no access.
pub open spec fn shows_read_operand(
    cols: MemoryAccessCols,
    record: Option<MemoryRecordEnum>,
    value: u32,
) -> bool {
    match record {
        Some(MemoryRecordEnum::Read(r)) => memory::shows(
            cols,
            r.value,
            r.prev_shard,
            r.prev_timestamp,
            r.shard,
            r.timestamp,
        ),
        _ => {
            &&& memory::number(cols.value@) == value
            &&& cols.prev_shard.value == 0 && cols.prev_clk.value == 0
            &&& cols.compare_clk.value == 0
            &&& cols.diff_16bit_limb.value == 0 && cols.diff_8bit_limb.value == 0
        },
    }
}

/// Whether columns show the first operand: the access to it, be it a read or a write, with the value
/// before; else the operand alone.
pub open spec fn shows_first_operand(
    cols: MemoryReadWriteCols,
    record: Option<MemoryRecordEnum>,
    value: u32,
) -> bool {
    match record {
        Some(MemoryRecordEnum::Read(r)) => {
            &&& memory::number(cols.prev_value@) == r.value
            &&& memory::shows(
                cols.access,
                r.value,
                r.prev_shard,
                r.prev_timestamp,
                r.shard,
                r.timestamp,
            )
        },
        Some(MemoryRecordEnum::Write(w)) => {
            &&& memory::number(cols.prev_value@) == w.prev_value
            &&& memory::shows(
                cols.access,
                w.value,
                w.prev_shard,
                w.prev_timestamp,
                w.shard,
                w.timestamp,
            )
        },
        None => {
            &&& memory::number(cols.prev_value@) == 0
            &&& shows_read_operand(cols.access, None, value)
        },
    }
}

/// The row of an executed instruction shows all three of its operands: for each access its value, the
/// access before it, and how far apart the two are.
pub proof fn law_row_shows_operands(
    row: CpuCols,
    event: CpuEvent,
    shard: u32,
    instruction: Instruction,
)
    requires
        row.holds(event, shard, instruction),
        event.well_formed(),
    ensures
        shows_first_operand(row.op_a_access, event.a_record, event.a),
        shows_read_operand(row.op_b_access, event.b_record, event.b),
        shows_read_operand(row.op_c_access, event.c_record, event.c),
{
    lemma_shows_read(row.op_b_access, event.b_record, event.b);
    lemma_shows_read(row.op_c_access, event.c_record, event.c);
    match event.a_record {
        Some(MemoryRecordEnum::Read(r)) => {
            memory::law_columns_show_read(row.op_a_access.access, r);
            memory::law_columns_show_previous(row.op_a_access, event.a_record->0);
        },
        Some(MemoryRecordEnum::Write(w)) => {
            memory::law_columns_show_write(row.op_a_access.access, w);
            memory::law_columns_show_previous(row.op_a_access, event.a_record->0);
        },
        None => {
            memory::law_bytes_give_number(0);
            memory::law_bytes_give_number(event.a);
        },
    }
}

proof fn lemma_shows_read(cols: MemoryAccessCols, record: Option<MemoryRecordEnum>, value: u32)
    requires
        holds_read(cols, record, value),
        read_ok(record),
    ensures
        shows_read_operand(cols, record, value),
{
    match record {
        Some(MemoryRecordEnum::Read(r)) => {
            memory::law_columns_show_read(cols, r);
        },
        _ => {
            memory::law_bytes_give_number(value);
        },
    }
}

/// The range checks of the limbs of a distance that columns hold.
pub open spec fn checks_limbs(checks: Seq<ByteLookupEvent>, cols: MemoryAccessCols) -> bool {
    &&& checks.len() == 2
    &&& memory::checks_u16(checks[0], cols.diff_16bit_limb.value as int)
    &&& memory::checks_u8(checks[1], 0, cols.diff_8bit_limb.value as int)
}

/// The range checks of the bytes of a value that columns hold.
pub open spec fn checks_bytes(checks: Seq<ByteLookupEvent>, cols: MemoryAccessCols) -> bool {
    let v = cols.value@;
    &&& checks.len() == 2
    &&& memory::checks_u8(checks[0], v[0].value as int, v[1].value as int)
    &&& memory::checks_u8(checks[1], v[2].value as int, v[3].value as int)
}

/// The range checks that go with a row are those of what its columns hold, in this order: its shard
/// and the limbs of its time; the limbs of the distance of each access that it shows, but not that of
/// the first operand of a system call; and the bytes of the first operand.
pub proof fn law_lookups_check_columns(
    row: CpuCols,
    event: CpuEvent,
    shard: u32,
    instruction: Instruction,
    added: Seq<ByteLookupEvent>,
) -> (parts: (
    Seq<ByteLookupEvent>,
    Seq<ByteLookupEvent>,
    Seq<ByteLookupEvent>,
    Seq<ByteLookupEvent>,
    Seq<ByteLookupEvent>,
))
    requires
        row.holds(event, shard, instruction),
        event.well_formed(),
        added == event_lookups(event, shard, instruction),
    ensures
        added == parts.0 + parts.1 + parts.2 + parts.3 + parts.4,
        parts.0.len() == 3,
        memory::checks_u16(parts.0[0], shard as int % 0x1_0000),
        memory::checks_u16(parts.0[1], row.clk_16bit_limb.value as int),
        memory::checks_u8(parts.0[2], 0, row.clk_8bit_limb.value as int),
        if event.a_record is Some && row.is_syscall.value == 0 {
            checks_limbs(parts.1, row.op_a_access.access)
        } else {
            parts.1.len() == 0
        },
        if event.b_record matches Some(MemoryRecordEnum::Read(_)) {
            checks_limbs(parts.2, row.op_b_access)
        } else {
            parts.2.len() == 0
        },
        if event.c_record matches Some(MemoryRecordEnum::Read(_)) {
            checks_limbs(parts.3, row.op_c_access)
        } else {
            parts.3.len() == 0
        },
        checks_bytes(parts.4, row.op_a_access.access),
{
    let own = if instruction.is_ecall {
        Seq::empty()
    } else {
        record_checks(event.a_record)
    };
    let v = result_value(event);
    memory::law_bytes_give_number(v);
    assert(row.op_a_access.access.value@ == memory::word(v));
    assert(shard as u16 == shard as int % 0x1_0000) by {
        assert(shard as u16 == shard % 0x1_0000) by (bit_vector);
    }
    (
        time_checks(shard, event.clk),
        own,
        read_checks(event.b_record),
        read_checks(event.c_record),
        memory::word_checks(v),
    )
}

/// What a row says of the instruction and of when it was executed, read back from its columns. The
/// time is sent to another chip exactly by loads, stores and system calls, and is then that of the
/// row; a system call takes its number and its extra cycles from bytes of what the first operand held
/// before.
pub proof fn law_row_shows_instruction(
    row: CpuCols,
    event: CpuEvent,
    shard: u32,
    instruction: Instruction,
)
    requires
        row.holds(event, shard, instruction),
        event.well_formed(),
    ensures
        row.is_real.value == 1,
        row.shard.value as int == shard as int % (babybear::P as int),
        row.clk_16bit_limb.value + 0x1_0000 * row.clk_8bit_limb.value == event.clk % 0x100_0000,
        row.clk_16bit_limb.value < 0x1_0000 && row.clk_8bit_limb.value < 0x100,
        row.pc.value as int == event.pc as int % (babybear::P as int),
        row.next_pc.value as int == event.next_pc as int % (babybear::P as int),
        row.instruction.opcode.value as int == instruction.opcode as int % (babybear::P as int),
        row.instruction.op_a.value == instruction.op_a,
        memory::number(row.instruction.op_b@) == instruction.op_b,
        memory::number(row.instruction.op_c@) == instruction.op_c,
        row.instruction.op_a_0.value == 1 <==> row.instruction.op_a.value == 0,
        row.instruction.imm_b.value == 1 <==> instruction.imm_b,
        row.instruction.imm_c.value == 1 <==> instruction.imm_c,
        row.is_memory.value == 1 <==> instruction.is_memory_load || instruction.is_memory_store,
        row.is_syscall.value == 1 <==> instruction.is_ecall,
        row.op_a_immutable.value == 1 <==> instruction.is_memory_store || instruction.is_branch,
        forall|f: Felt|
            seq![
                row.instruction.op_a_0,
                row.instruction.imm_b,
                row.instruction.imm_c,
                row.is_memory,
                row.is_syscall,
                row.op_a_immutable,
                row.is_halt,
            ].contains(f) ==> f.value == 0 || f.value == 1,
        row.is_memory.value == 1 || row.is_syscall.value == 1 ==> {
            &&& row.shard_to_send == row.shard
            &&& row.clk_to_send.value as int == event.clk as int % (babybear::P as int)
            &&& event.clk < 0x100_0000 ==> row.clk_to_send.value == row.clk_16bit_limb.value
                + 0x1_0000 * row.clk_8bit_limb.value
        },
        row.is_memory.value == 0 && row.is_syscall.value == 0 ==> row.shard_to_send.value == 0
            && row.clk_to_send.value == 0,
        row.is_syscall.value == 0 ==> row.is_halt.value == 0 && row.num_extra_cycles.value == 0,
        row.is_syscall.value == 1 ==> {
            let before = memory::number(row.op_a_access.prev_value@);
            &&& row.is_halt.value == 1 <==> before % 0x100 == 0
            &&& row.num_extra_cycles.value == before / 0x1_0000 % 0x100
        },
{
    memory::law_limbs_give_number(event.clk);
    memory::law_bytes_give_number(instruction.op_b);
    memory::law_bytes_give_number(instruction.op_c);
    let before = match event.a_record {
        Some(r) => r.previous().value,
        None => 0,
    };
    memory::law_bytes_give_number(before);
    assert(row.op_a_access.prev_value@ == memory::word(before));
    let flags = seq![
        row.instruction.op_a_0,
        row.instruction.imm_b,
        row.instruction.imm_c,
        row.is_memory,
        row.is_syscall,
        row.op_a_immutable,
        row.is_halt,
    ];
    assert forall|f: Felt| flags.contains(f) implies f.value == 0 || f.value == 1 by {
        let i = choose|i: int| 0 <= i < flags.len() && flags[i] == f;
        assert(i == 0 || i == 1 || i == 2 || i == 3 || i == 4 || i == 5 || i == 6);
    }
}

/// The rows that fill up the table show nothing: they are not real, send no time, and no operand
/// was accessed; they count as system calls that neither halt nor take extra cycles, with operands
/// that are not registers.
pub proof fn law_padding_shows_nothing(row: CpuCols)
    requires
        row.is_padding(),
    ensures
        row.is_real.value == 0,
        row.shard.value == 0 && row.clk_16bit_limb.value == 0 && row.clk_8bit_limb.value == 0,
        row.shard_to_send.value == 0 && row.clk_to_send.value == 0,
        row.pc.value == 0 && row.next_pc.value == 0,
        row.instruction.opcode.value == 0 && row.instruction.op_a.value == 0,
        memory::number(row.instruction.op_b@) == 0,
        memory::number(row.instruction.op_c@) == 0,
        row.instruction.op_a_0.value == 0,
        row.instruction.imm_b.value == 1 && row.instruction.imm_c.value == 1,
        row.is_memory.value == 0 && row.op_a_immutable.value == 0,
        row.is_syscall.value == 1 && row.is_halt.value == 0,
        row.num_extra_cycles.value == 0,
        shows_first_operand(row.op_a_access, None, 0),
        shows_read_operand(row.op_b_access, None, 0),
        shows_read_operand(row.op_c_access, None, 0),
{
    memory::law_bytes_give_number(0);
}

/// The range checks of two lists of events, one after the other, are those of the first list
/// followed by those of the second: every event is checked, in order, and by itself.
pub proof fn law_lookups_of_parts(
    events: Seq<CpuEvent>,
    instructions: Seq<Instruction>,
    shard: u32,
    m: nat,
    n: nat,
)
    requires
        m + n == events.len(),
        instructions.len() == events.len(),
    ensures
        CpuChip::all_lookups(events, instructions, shard, events.len())
            == CpuChip::all_lookups(
            events.take(m as int),
            instructions.take(m as int),
            shard,
            m,
        ) + CpuChip::all_lookups(
            events.skip(m as int),
            instructions.skip(m as int),
            shard,
            n,
        ),
        n == 1 ==> CpuChip::all_lookups(
            events.skip(m as int),
            instructions.skip(m as int),
            shard,
            n,
        ) == event_lookups(events.last(), shard, instructions.last()),
{
    lemma_lookups_prefix(events, instructions, shard, m, m);
    lemma_lookups_split(events, instructions, shard, m, n);
    if n == 1 {
        reveal_with_fuel(CpuChip::all_lookups, 2);
        assert(Seq::<ByteLookupEvent>::empty() + event_lookups(
            events.last(),
            shard,
            instructions.last(),
        ) =~= event_lookups(events.last(), shard, instructions.last()));
    }
}

proof fn lemma_lookups_prefix(
    events: Seq<CpuEvent>,
    instructions: Seq<Instruction>,
    shard: u32,
    m: nat,
    k: nat,
)
    requires
        k <= m <= events.len(),
        instructions.len() == events.len(),
    ensures
        CpuChip::all_lookups(events.take(m as int), instructions.take(m as int), shard, k)
            == CpuChip::all_lookups(events, instructions, shard, k),
    decreases k,
{
    if k > 0 {
        lemma_lookups_prefix(events, instructions, shard, m, (k - 1) as nat);
    }
}

proof fn lemma_lookups_split(
    events: Seq<CpuEvent>,
    instructions: Seq<Instruction>,
    shard: u32,
    m: nat,
    k: nat,
)
    requires
        m + k <= events.len(),
        instructions.len() == events.len(),
    ensures
        CpuChip::all_lookups(events, instructions, shard, m + k) == CpuChip::all_lookups(
            events,
            instructions,
            shard,
            m,
        ) + CpuChip::all_lookups(
            events.skip(m as int),
            instructions.skip(m as int),
            shard,
            k,
        ),
    decreases k,
{
    let head = CpuChip::all_lookups(events, instructions, shard, m);
    if k > 0 {
        lemma_lookups_split(events, instructions, shard, m, (k - 1) as nat);
        assert(events.skip(m as int)[k - 1] == events[m + k - 1]);
        assert(instructions.skip(m as int)[k - 1] == instructions[m + k - 1]);
        let tail = CpuChip::all_lookups(
            events.skip(m as int),
            instructions.skip(m as int),
            shard,
            (k - 1) as nat,
        );
        let one = event_lookups(events[m + k - 1], shard, instructions[m + k - 1]);
        assert((head + tail) + one =~= head + (tail + one));
    } else {
        assert(head + Seq::<ByteLookupEvent>::empty() =~= head);
    }
}

/// The table of executed instructions has a real row for each of them, in order, which shows its
/// program counters and its operands; all other rows are not real.
pub proof fn law_table_shows_events(
    rows: Seq<CpuCols>,
    events: Seq<CpuEvent>,
    instructions: Seq<Instruction>,
    shard: u32,
    i: int,
)
    requires
        is_table(rows, events, instructions, shard),
        forall|k: int| 0 <= k < events.len() ==> (#[trigger] events[k]).well_formed(),
        0 <= i < rows.len(),
    ensures
        rows[i].is_real.value == 1 <==> i < events.len(),
        i < events.len() ==> {
            &&& rows[i].pc.value as int == events[i].pc as int % (babybear::P as int)
            &&& rows[i].next_pc.value as int == events[i].next_pc as int % (babybear::P as int)
            &&& rows[i].instruction.opcode.value as int == instructions[i].opcode as int % (
            babybear::P as int)
            &&& shows_first_operand(rows[i].op_a_access, events[i].a_record, events[i].a)
            &&& shows_read_operand(rows[i].op_b_access, events[i].b_record, events[i].b)
            &&& shows_read_operand(rows[i].op_c_access, events[i].c_record, events[i].c)
        },
        i >= events.len() ==> rows[i].is_real.value == 0 && rows[i].pc.value == 0,
{
    let row = rows[i];
    if i < events.len() {
        assert(events[i].well_formed());
        law_row_shows_instruction(row, events[i], shard, instructions[i]);
        law_row_shows_operands(row, events[i], shard, instructions[i]);
    } else {
        law_padding_shows_nothing(row);
    }
}

/// The share of each processor is at least one event, is as large as all of them can take alike, and
/// no larger.
pub proof fn law_share_is_even(events: usize, processors: usize)
    requires
        processors > 0,
    ensures
        CpuChip::share_of(events, processors) >= 1,
        events >= processors ==> CpuChip::share_of(events, processors) * processors <= events
            < (CpuChip::share_of(events, processors) + 1) * processors,
        events < processors ==> CpuChip::share_of(events, processors) == 1,
{
    let (e, p) = (events as int, processors as int);
    let q = e / p;
    vstd::arithmetic::div_mod::lemma_fundamental_div_mod(e, p);
    vstd::arithmetic::div_mod::lemma_mod_bound(e, p);
    vstd::arithmetic::mul::lemma_mul_is_commutative(p, q);
    assert((q + 1) * p == q * p + p) by (nonlinear_arith);
    if events >= processors {
        vstd::arithmetic::div_mod::lemma_div_non_zero(e, p);
    }
}

/// Chunks take the events in order and alike: chunk `c` has the range checks of the events from number
/// `c` times the chunk size on, of as many as the chunk size says or as are left, and the chunks put
/// together have those of all events, each chunk's own after those of the chunks before it.
pub proof fn law_chunk_is_of_its_events(
    events: Seq<CpuEvent>,
    instructions: Seq<Instruction>,
    shard: u32,
    chunk_size: nat,
    c: nat,
)
    requires
        chunk_size > 0,
        c * chunk_size < events.len(),
        instructions.len() == events.len(),
    ensures
        ({
            let from = (c * chunk_size) as int;
            let to = if from + chunk_size <= events.len() {
                from + chunk_size
            } else {
                events.len() as int
            };
            &&& CpuChip::chunk_lookups(events, instructions, shard, chunk_size, c)
                == CpuChip::all_lookups(
                events.subrange(from, to),
                instructions.subrange(from, to),
                shard,
                (to - from) as nat,
            )
            &&& CpuChip::all_lookups(events, instructions, shard, to as nat)
                == CpuChip::all_lookups(events, instructions, shard, from as nat)
                + CpuChip::chunk_lookups(events, instructions, shard, chunk_size, c)
        }),
{
    let from = (c * chunk_size) as int;
    assert((c + 1) * chunk_size == from + chunk_size) by (nonlinear_arith)
        requires
            from == c * chunk_size,
    ;
    let to = if from + chunk_size <= events.len() {
        from + chunk_size
    } else {
        events.len() as int
    };
    let k = (to - from) as nat;
    lemma_lookups_split(events, instructions, shard, from as nat, k);
    lemma_lookups_prefix(events.skip(from), instructions.skip(from), shard, k, k);
    assert(events.skip(from).take(k as int) =~= events.subrange(from, to));
    assert(instructions.skip(from).take(k as int) =~= instructions.subrange(from, to));
}

} // verus!
