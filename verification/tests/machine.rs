use metalspone::babybear::Felt;
use metalspone::cpu::{CpuChip, CpuEvent, Instruction};
use metalspone::memory::{
    limbs, next_power_of_two, padded_rows, to_le_bytes, ByteLookupEvent, ByteOpcode,
    MemoryReadRecord, MemoryRecordEnum, MemoryWriteRecord,
};
use metalspone::poseidon2::{
    Poseidon2Chip, Poseidon2Event, Poseidon2Syscall, NUM_PERM_COLS, NUM_POSEIDON2_COLS,
};

fn felt(n: u32) -> Felt {
    Felt { value: n }
}

fn u16_check(x: u16) -> ByteLookupEvent {
    ByteLookupEvent { opcode: ByteOpcode::U16Range, a1: x, a2: 0, b: 0, c: 0 }
}

fn u8_check(b: u8, c: u8) -> ByteLookupEvent {
    ByteLookupEvent { opcode: ByteOpcode::U8Range, a1: 0, a2: 0, b, c }
}

fn add() -> Instruction {
    Instruction {
        opcode: 1,
        op_a: 5,
        op_b: 6,
        op_c: 0x0403_0201,
        imm_b: false,
        imm_c: true,
        is_memory_load: false,
        is_memory_store: false,
        is_branch: false,
        is_ecall: false,
    }
}

fn read(value: u32, prev_shard: u32, prev_timestamp: u32, shard: u32, timestamp: u32) -> MemoryReadRecord {
    MemoryReadRecord { value, shard, timestamp, prev_shard, prev_timestamp }
}

fn write(value: u32, prev_value: u32) -> MemoryWriteRecord {
    MemoryWriteRecord {
        value,
        shard: 2,
        timestamp: 0x2_0010,
        prev_value,
        prev_shard: 2,
        prev_timestamp: 0x1_0000,
    }
}

fn event() -> CpuEvent {
    CpuEvent {
        clk: 0x0012_3456,
        pc: 8,
        next_pc: 12,
        a: 99,
        a_record: Some(MemoryRecordEnum::Write(write(0x0a0b_0c0d, 7))),
        b: 6,
        b_record: Some(MemoryRecordEnum::Read(read(6, 1, 500, 2, 9))),
        c: 0x0403_0201,
        c_record: None,
    }
}

#[test]
fn a_row_holds_an_executed_instruction() {
    let mut out = vec![];
    let row = CpuChip::event_to_row(&event(), &mut out, 2, &add());
    assert_eq!(row.shard, felt(2));
    assert_eq!((row.clk_16bit_limb, row.clk_8bit_limb), (felt(0x3456), felt(0x12)));
    assert_eq!((row.shard_to_send, row.clk_to_send), (felt(0), felt(0)));
    assert_eq!((row.pc, row.next_pc), (felt(8), felt(12)));
    assert_eq!(row.instruction.op_c, [1, 2, 3, 4].map(felt));
    assert_eq!((row.instruction.imm_b, row.instruction.imm_c), (felt(0), felt(1)));
    assert_eq!(row.op_a_access.prev_value, [7, 0, 0, 0].map(felt));
    assert_eq!(row.op_a_access.access.value, [0x0d, 0x0c, 0x0b, 0x0a].map(felt));
    assert_eq!(row.op_a_access.access.compare_clk, felt(1));
    assert_eq!(row.op_a_access.access.diff_16bit_limb, felt(0x000f));
    assert_eq!(row.op_a_access.access.diff_8bit_limb, felt(1));
    // The other access was in an earlier shard.
    assert_eq!(row.op_b_access.compare_clk, felt(0));
    assert_eq!((row.op_b_access.prev_shard, row.op_b_access.prev_clk), (felt(1), felt(500)));
    assert_eq!(row.op_b_access.diff_16bit_limb, felt(0));
    assert_eq!(row.op_c_access.value, [1, 2, 3, 4].map(felt));
    assert_eq!(row.is_real, felt(1));
    assert_eq!(
        out,
        vec![
            u16_check(2),
            u16_check(0x3456),
            u8_check(0, 0x12),
            u16_check(0x000f),
            u8_check(0, 1),
            u16_check(0),
            u8_check(0, 0),
            u8_check(0x0d, 0x0c),
            u8_check(0x0b, 0x0a),
        ]
    );
}

#[test]
fn collecting_lookups_gives_those_of_the_row() {
    for is_ecall in [false, true] {
        let mut instruction = add();
        instruction.is_ecall = is_ecall;
        let mut with_row = vec![];
        CpuChip::event_to_row(&event(), &mut with_row, 2, &instruction);
        let mut alone = vec![];
        CpuChip::collect_byte_lookups(&event(), &mut alone, 2, &instruction);
        assert_eq!(with_row, alone);
        assert_eq!(alone.len(), if is_ecall { 7 } else { 9 });
    }
}

#[test]
fn a_system_call_reads_its_number_from_the_first_operand() {
    let mut instruction = add();
    instruction.is_ecall = true;
    let mut e = event();
    e.a_record = Some(MemoryRecordEnum::Write(write(1, 0x0003_0000)));
    let row = CpuChip::event_to_row(&e, &mut vec![], 2, &instruction);
    assert_eq!((row.is_syscall, row.is_halt, row.num_extra_cycles), (felt(1), felt(1), felt(3)));
    assert_eq!((row.shard_to_send, row.clk_to_send), (felt(2), felt(0x0012_3456)));
    e.a_record = Some(MemoryRecordEnum::Write(write(1, 0x0003_0001)));
    let row = CpuChip::event_to_row(&e, &mut vec![], 2, &instruction);
    assert_eq!(row.is_halt, felt(0));
}

#[test]
fn loads_and_stores_are_memory_instructions() {
    let mut store = add();
    store.is_memory_store = true;
    let row = CpuChip::event_to_row(&event(), &mut vec![], 2, &store);
    assert_eq!((row.is_memory, row.op_a_immutable), (felt(1), felt(1)));
    let mut load = add();
    load.is_memory_load = true;
    let row = CpuChip::event_to_row(&event(), &mut vec![], 2, &load);
    assert_eq!((row.is_memory, row.op_a_immutable), (felt(1), felt(0)));
    let mut branch = add();
    branch.is_branch = true;
    let row = CpuChip::event_to_row(&event(), &mut vec![], 2, &branch);
    assert_eq!((row.is_memory, row.op_a_immutable, row.clk_to_send), (felt(0), felt(1), felt(0)));
}

#[test]
fn the_table_is_filled_up() {
    let trace = CpuChip::generate_trace(&vec![event(); 3], &vec![add(); 3], 2, None);
    assert_eq!(trace.len(), 16);
    assert_eq!(trace[2].is_real, felt(1));
    assert_eq!(trace[3].is_real, felt(0));
    assert_eq!((trace[3].instruction.imm_b, trace[3].instruction.imm_c), (felt(1), felt(1)));
    assert_eq!(trace[3].is_syscall, felt(1));
    let trace = CpuChip::generate_trace(&vec![event(); 17], &vec![add(); 17], 2, None);
    assert_eq!(trace.len(), 32);
    let trace = CpuChip::generate_trace(&vec![event(); 3], &vec![add(); 3], 2, Some(64));
    assert_eq!(trace.len(), 64);
}

#[test]
fn chunks_of_any_size_give_the_same_lookups() {
    let events = vec![event(); 5];
    let instructions = vec![add(); 5];
    let whole: Vec<ByteLookupEvent> =
        CpuChip::generate_dependencies(&events, &instructions, 2, 5).concat();
    assert_eq!(whole.len(), 45);
    for size in 1..7 {
        let parts = CpuChip::generate_dependencies(&events, &instructions, 2, size);
        assert_eq!(parts.len(), (5 + size - 1) / size);
        assert_eq!(parts.concat(), whole);
    }
}

#[test]
fn a_chunk_holds_the_lookups_of_its_own_events() {
    let events: Vec<CpuEvent> = (0..5).map(|i| CpuEvent { clk: 0x0012_3456 + i, ..event() }).collect();
    let instructions = vec![add(); 5];
    let alone: Vec<Vec<ByteLookupEvent>> = events
        .iter()
        .map(|e| {
            let mut out = vec![];
            CpuChip::collect_byte_lookups(e, &mut out, 2, &add());
            out
        })
        .collect();
    assert_ne!(alone[0], alone[1]);
    let parts = CpuChip::generate_dependencies(&events, &instructions, 2, 2);
    assert_eq!(parts, vec![alone[..2].concat(), alone[2..4].concat(), alone[4..].concat()]);
}

#[test]
fn what_is_not_checked_need_not_be_in_order() {
    // The access of the first operand of a system call, and a write of another operand.
    let mut instruction = add();
    instruction.is_ecall = true;
    let mut e = event();
    let late = MemoryRecordEnum::Write(MemoryWriteRecord { prev_timestamp: u32::MAX, ..write(1, 7) });
    e.a_record = Some(late);
    e.b_record = Some(late);
    let mut out = vec![];
    CpuChip::collect_byte_lookups(&e, &mut out, 2, &instruction);
    assert_eq!(
        out,
        vec![u16_check(2), u16_check(0x3456), u8_check(0, 0x12), u8_check(1, 0), u8_check(0, 0)]
    );
}

#[test]
fn processors_share_the_events() {
    assert_eq!(CpuChip::share(10, 4), 2);
    assert_eq!(CpuChip::share(3, 4), 1);
    assert_eq!(CpuChip::share(0, 4), 1);
    let size = CpuChip::chunk_size(1000);
    assert!(size >= 1 && size <= 1000);
    assert_eq!(size, CpuChip::share(1000, num_cpus::get()));
    assert!(CpuChip::included(None, true));
    assert!(!CpuChip::included(Some(false), true));
}

#[test]
fn numbers_are_split_into_limbs_and_bytes() {
    assert_eq!(limbs(0x0012_3456), (0x3456, 0x12));
    assert_eq!(limbs(0xff00_0001), (1, 0));
    assert_eq!(to_le_bytes(0x0403_0201), [1, 2, 3, 4]);
    assert_eq!(next_power_of_two(17), 32);
    assert_eq!(next_power_of_two(16), 16);
    assert_eq!(padded_rows(3, None), 16);
    assert_eq!(padded_rows(100, Some(128)), 128);
}

fn poseidon2_event() -> Poseidon2Event {
    let mut input = [0u32; 16];
    let mut state = vec![];
    for i in 0..16 {
        input[i] = 256 * i as u32 + 1;
        state.push(felt(65536 * i as u32 + 2));
    }
    let (event, result) = Poseidon2Syscall::new().execute(
        3,
        40,
        0x1000,
        0x2000,
        input,
        &state,
        [read(5, 1, 2, 3, 40); 16],
        [write(8, 9); 16],
        vec![],
    );
    assert_eq!(result, None);
    event
}

#[test]
fn the_system_call_reads_and_writes_sixteen_words() {
    let call = Poseidon2Syscall::new();
    let reads = call.reads(0x1000);
    assert_eq!(reads.len(), 16);
    assert_eq!((reads[0], reads[15]), (0x1000, 0x103c));
    let state = call.permutation_input(&poseidon2_event().input);
    assert_eq!(state[3], felt(769));
    let (clk, writes) = call.writes(40, 0x2000, &state);
    assert_eq!(clk, 41);
    assert_eq!(writes[3], (0x200c, 769));
    assert_eq!(call.num_extra_cycles(), 1);
    // Words are taken modulo the prime.
    let mut words = [0u32; 16];
    words[0] = 2013265921 + 5;
    assert_eq!(call.permutation_input(&words)[0], felt(5));
    let e = poseidon2_event();
    assert_eq!((e.shard, e.clk, e.input_ptr, e.output_ptr), (3, 40, 0x1000, 0x2000));
    assert_eq!((e.output[0], e.output[15]), (2, 65536 * 15 + 2));
}

#[test]
fn a_permutation_takes_one_row() {
    let chip = Poseidon2Chip;
    let perm: Vec<Felt> = (0..NUM_PERM_COLS as u32).map(felt).collect();
    let row = chip.event_to_rows(&poseidon2_event(), perm.clone());
    assert_eq!((row.shard, row.clk), (felt(3), felt(40)));
    assert_eq!((row.input_ptr, row.output_ptr), (felt(0x1000), felt(0x2000)));
    assert_eq!(row.input_memory.len(), 16);
    assert_eq!(row.input_memory[4].access.value, [5, 0, 0, 0].map(felt));
    assert_eq!(row.input_memory[4].access.compare_clk, felt(0));
    assert_eq!(row.output_memory[15].prev_value, [9, 0, 0, 0].map(felt));
    assert_eq!(row.perm, perm);
    assert_eq!(row.is_real, felt(1));

    let accesses = row.memory_accesses();
    assert_eq!(accesses.len(), 32);
    assert_eq!((accesses[3].addr, accesses[3].clk), (felt(0x100c), felt(40)));
    assert_eq!((accesses[19].addr, accesses[19].clk), (felt(0x200c), felt(41)));
    assert_eq!((accesses[31].shard, accesses[31].is_real), (felt(3), felt(1)));
    let call = row.received_call();
    assert_eq!((call.shard, call.clk, call.is_real), (felt(3), felt(40), felt(1)));
    assert_eq!((call.input_ptr, call.output_ptr), (felt(0x1000), felt(0x2000)));

    let trace = chip.generate_trace(&vec![poseidon2_event()], vec![perm.clone()], None);
    assert_eq!(trace.len(), 16);
    assert_eq!(trace[0].is_real, felt(1));
    assert_eq!(trace[1].is_real, felt(0));
    assert_eq!(trace[1].perm, vec![felt(0); NUM_PERM_COLS]);
    let trace = chip.generate_trace(&vec![poseidon2_event()], vec![perm], Some(5));
    assert_eq!(trace.len(), 32);
}

#[test]
fn the_words_of_a_permutation_are_checked_bytewise() {
    let chip = Poseidon2Chip;
    let lookups = chip.generate_dependencies(&vec![poseidon2_event()]);
    assert_eq!(lookups.len(), 64);
    assert_eq!(lookups[2], u8_check(1, 1));
    assert_eq!(lookups[32 + 3], u8_check(1, 0));
    let mut out = vec![];
    Poseidon2Chip::populate_byte_lookup_events(&poseidon2_event(), &mut out);
    assert_eq!(out, lookups);
}

#[test]
fn the_chip_takes_part_where_there_are_events() {
    let chip = Poseidon2Chip;
    assert_eq!(chip.name(), "Poseidon2");
    assert_eq!(chip.width(), NUM_POSEIDON2_COLS);
    assert!(!chip.included(None, 0));
    assert!(chip.included(None, 2));
    assert!(chip.included(Some(true), 0));
    assert!(!chip.included(Some(false), 2));
}
