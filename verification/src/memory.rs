//! Memory records, the columns that hold them, and the range checks that they ask for.

use vstd::prelude::*;
use vstd::arithmetic::power2::*;
use crate::babybear;
use crate::babybear::{Felt, P};

verus! {

/// A value in memory and when it was put there.
#[derive(Clone, Copy, PartialEq, Eq, Structural, Debug)]
pub struct MemoryRecord {
    pub shard: u32,
    pub timestamp: u32,
    pub value: u32,
}

/// A read of a value, with the access before it.
#[derive(Clone, Copy, PartialEq, Eq, Structural, Debug)]
pub struct MemoryReadRecord {
    pub value: u32,
    pub shard: u32,
    pub timestamp: u32,
    pub prev_shard: u32,
    pub prev_timestamp: u32,
}

/// A write of a value, with the value and the access before it.
#[derive(Clone, Copy, PartialEq, Eq, Structural, Debug)]
pub struct MemoryWriteRecord {
    pub value: u32,
    pub shard: u32,
    pub timestamp: u32,
    pub prev_value: u32,
    pub prev_shard: u32,
    pub prev_timestamp: u32,
}

/// A read or a write.
#[derive(Clone, Copy, PartialEq, Eq, Structural, Debug)]
pub enum MemoryRecordEnum {
    Read(MemoryReadRecord),
    Write(MemoryWriteRecord),
}

impl MemoryRecordEnum {
    pub open spec fn current(&self) -> MemoryRecord {
        match self {
            MemoryRecordEnum::Read(r) => MemoryRecord {
                shard: r.shard,
                timestamp: r.timestamp,
                value: r.value,
            },
            MemoryRecordEnum::Write(w) => MemoryRecord {
                shard: w.shard,
                timestamp: w.timestamp,
                value: w.value,
            },
        }
    }

    pub open spec fn previous(&self) -> MemoryRecord {
        match self {
            MemoryRecordEnum::Read(r) => MemoryRecord {
                shard: r.prev_shard,
                timestamp: r.prev_timestamp,
                value: r.value,
            },
            MemoryRecordEnum::Write(w) => MemoryRecord {
                shard: w.prev_shard,
                timestamp: w.prev_timestamp,
                value: w.prev_value,
            },
        }
    }

    /// What memory holds after the access.
    pub fn current_record(&self) -> (r: MemoryRecord)
        ensures
            r == self.current(),
    {
        match self {
            MemoryRecordEnum::Read(r) => MemoryRecord {
                shard: r.shard,
                timestamp: r.timestamp,
                value: r.value,
            },
            MemoryRecordEnum::Write(w) => MemoryRecord {
                shard: w.shard,
                timestamp: w.timestamp,
                value: w.value,
            },
        }
    }

    /// What memory held before the access.
    pub fn previous_record(&self) -> (r: MemoryRecord)
        ensures
            r == self.previous(),
    {
        match self {
            MemoryRecordEnum::Read(r) => MemoryRecord {
                shard: r.prev_shard,
                timestamp: r.prev_timestamp,
                value: r.value,
            },
            MemoryRecordEnum::Write(w) => MemoryRecord {
                shard: w.prev_shard,
                timestamp: w.prev_timestamp,
                value: w.prev_value,
            },
        }
    }
}

/// The time of two accesses: that within the shard if both are in the same one, else the shards.
pub open spec fn times(prev: MemoryRecord, cur: MemoryRecord) -> (u32, u32) {
    if prev.shard == cur.shard {
        (prev.timestamp, cur.timestamp)
    } else {
        (prev.shard, cur.shard)
    }
}

/// Whether one access is before another.
pub open spec fn in_order(prev: MemoryRecord, cur: MemoryRecord) -> bool {
    times(prev, cur).0 < times(prev, cur).1
}

/// The distance of two accesses, less one.
pub open spec fn gap(prev: MemoryRecord, cur: MemoryRecord) -> u32 {
    (times(prev, cur).1 - times(prev, cur).0 - 1) as u32
}

/// The low sixteen bits.
pub open spec fn low_limb(x: u32) -> u16 {
    (x % 0x1_0000) as u16
}

/// The eight bits above the low sixteen.
pub open spec fn high_limb(x: u32) -> u8 {
    ((x / 0x1_0000) % 0x100) as u8
}

/// Splits a number into its low sixteen bits and the eight bits above.
pub fn limbs(x: u32) -> (r: (u16, u8))
    ensures
        r.0 == low_limb(x),
        r.1 == high_limb(x),
{
    assert(x & 0xffff == x % 0x1_0000) by (bit_vector);
    assert((x >> 16) & 0xff == (x / 0x1_0000) % 0x100) by (bit_vector);
    ((x & 0xffff) as u16, ((x >> 16) & 0xff) as u8)
}

/// The bytes of a number, lowest first.
pub open spec fn le_bytes(x: u32) -> Seq<u8> {
    seq![
        (x % 0x100) as u8,
        ((x / 0x100) % 0x100) as u8,
        ((x / 0x1_0000) % 0x100) as u8,
        ((x / 0x100_0000) % 0x100) as u8,
    ]
}

/// The bytes of a number, lowest first.
pub fn to_le_bytes(x: u32) -> (r: [u8; 4])
    ensures
        r@ == le_bytes(x),
{
    let r: [u8; 4] = [
        (x % 0x100) as u8,
        ((x / 0x100) % 0x100) as u8,
        ((x / 0x1_0000) % 0x100) as u8,
        ((x / 0x100_0000) % 0x100) as u8,
    ];
    assert(r@ =~= le_bytes(x));
    r
}

/// The kind of a range check.
#[derive(Clone, Copy, PartialEq, Eq, Structural, Debug, Hash)]
pub enum ByteOpcode {
    U8Range,
    U16Range,
}

/// A lookup in the table of bytes.
#[derive(Clone, Copy, PartialEq, Eq, Structural, Debug, Hash)]
pub struct ByteLookupEvent {
    pub opcode: ByteOpcode,
    pub a1: u16,
    pub a2: u8,
    pub b: u8,
    pub c: u8,
}

/// The check that a number has sixteen bits.
pub open spec fn u16_check(x: u16) -> ByteLookupEvent {
    ByteLookupEvent { opcode: ByteOpcode::U16Range, a1: x, a2: 0, b: 0, c: 0 }
}

/// The check that two numbers are bytes.
pub open spec fn u8_check(b: u8, c: u8) -> ByteLookupEvent {
    ByteLookupEvent { opcode: ByteOpcode::U8Range, a1: 0, a2: 0, b, c }
}

/// The checks that the bytes of a number are bytes, two at a time.
pub open spec fn word_checks(x: u32) -> Seq<ByteLookupEvent> {
    seq![u8_check(le_bytes(x)[0], le_bytes(x)[1]), u8_check(le_bytes(x)[2], le_bytes(x)[3])]
}

/// The checks that the limbs of a time difference are in range.
pub open spec fn gap_checks(prev: MemoryRecord, cur: MemoryRecord) -> Seq<ByteLookupEvent> {
    seq![u16_check(low_limb(gap(prev, cur))), u8_check(0, high_limb(gap(prev, cur)))]
}

pub fn add_u16_range_check(out: &mut Vec<ByteLookupEvent>, x: u16)
    ensures
        final(out)@ == old(out)@.push(u16_check(x)),
{
    out.push(ByteLookupEvent { opcode: ByteOpcode::U16Range, a1: x, a2: 0, b: 0, c: 0 });
}

pub fn add_u8_range_check(out: &mut Vec<ByteLookupEvent>, b: u8, c: u8)
    ensures
        final(out)@ == old(out)@.push(u8_check(b, c)),
{
    out.push(ByteLookupEvent { opcode: ByteOpcode::U8Range, a1: 0, a2: 0, b, c });
}

/// Adds the checks of the bytes of a number.
pub fn add_word_checks(out: &mut Vec<ByteLookupEvent>, x: u32)
    ensures
        final(out)@ == old(out)@ + word_checks(x),
{
    let bytes = to_le_bytes(x);
    add_u8_range_check(out, bytes[0], bytes[1]);
    add_u8_range_check(out, bytes[2], bytes[3]);
    assert(out@ =~= old(out)@ + word_checks(x));
}

/// Adds the checks of the time difference of two accesses.
pub fn add_gap_checks(out: &mut Vec<ByteLookupEvent>, prev: MemoryRecord, cur: MemoryRecord)
    requires
        in_order(prev, cur),
    ensures
        final(out)@ == old(out)@ + gap_checks(prev, cur),
{
    let (prev_t, cur_t): (u32, u32) = if prev.shard == cur.shard {
        (prev.timestamp, cur.timestamp)
    } else {
        (prev.shard, cur.shard)
    };
    let (low, high) = limbs(cur_t - prev_t - 1);
    add_u16_range_check(out, low);
    add_u8_range_check(out, 0, high);
    assert(out@ =~= old(out)@ + gap_checks(prev, cur));
}

/// The columns of a memory access.
#[derive(Clone, Copy, PartialEq, Eq, Debug)]
pub struct MemoryAccessCols {
    pub value: [Felt; 4],
    pub prev_shard: Felt,
    pub prev_clk: Felt,
    /// Whether the two accesses are compared by their time within the shard.
    pub compare_clk: Felt,
    pub diff_16bit_limb: Felt,
    pub diff_8bit_limb: Felt,
}

/// The columns of a memory access that may change the value.
#[derive(Clone, Copy, PartialEq, Eq, Debug)]
pub struct MemoryReadWriteCols {
    pub prev_value: [Felt; 4],
    pub access: MemoryAccessCols,
}

/// The bytes of a number as field elements.
pub open spec fn word(x: u32) -> Seq<Felt> {
    Seq::new(4, |i: int| Felt { value: le_bytes(x)[i] as u32 })
}

/// A number as a field element.
pub fn felt_of(x: u32) -> (r: Felt)
    ensures
        r == babybear::felt(x as int),
{
    Felt { value: x % P }
}

pub fn word_of(x: u32) -> (r: [Felt; 4])
    ensures
        r@ == word(x),
{
    let b = to_le_bytes(x);
    let r: [Felt; 4] = [
        Felt { value: b[0] as u32 },
        Felt { value: b[1] as u32 },
        Felt { value: b[2] as u32 },
        Felt { value: b[3] as u32 },
    ];
    assert(r@ =~= word(x));
    r
}

impl MemoryAccessCols {
    /// Whether the columns hold an access.
    pub open spec fn holds(&self, prev: MemoryRecord, cur: MemoryRecord) -> bool {
        &&& self.value@ == word(cur.value)
        &&& self.prev_shard == babybear::felt(prev.shard as int)
        &&& self.prev_clk == babybear::felt(prev.timestamp as int)
        &&& self.compare_clk == babybear::felt(
            if prev.shard == cur.shard {
                1
            } else {
                0
            },
        )
        &&& self.diff_16bit_limb == babybear::felt(low_limb(gap(prev, cur)) as int)
        &&& self.diff_8bit_limb == babybear::felt(high_limb(gap(prev, cur)) as int)
    }

    /// Whether the columns hold a value and are otherwise zero.
    pub open spec fn holds_value(&self, x: u32) -> bool {
        &&& self.value@ == word(x)
        &&& self.prev_shard == (Felt { value: 0 })
        &&& self.prev_clk == (Felt { value: 0 })
        &&& self.compare_clk == (Felt { value: 0 })
        &&& self.diff_16bit_limb == (Felt { value: 0 })
        &&& self.diff_8bit_limb == (Felt { value: 0 })
    }

    /// A value without an access.
    pub fn of_value(x: u32) -> (r: Self)
        ensures
            r.holds_value(x),
    {
        let zero = Felt { value: 0 };
        MemoryAccessCols {
            value: word_of(x),
            prev_shard: zero,
            prev_clk: zero,
            compare_clk: zero,
            diff_16bit_limb: zero,
            diff_8bit_limb: zero,
        }
    }

    /// Fills the columns with an access, and adds the checks that it asks for.
    pub fn populate(
        &mut self,
        prev: MemoryRecord,
        cur: MemoryRecord,
        out: &mut Vec<ByteLookupEvent>,
    )
        requires
            in_order(prev, cur),
        ensures
            final(self).holds(prev, cur),
            final(out)@ == old(out)@ + gap_checks(prev, cur),
    {
        let same: bool = prev.shard == cur.shard;
        let (prev_t, cur_t): (u32, u32) = if same {
            (prev.timestamp, cur.timestamp)
        } else {
            (prev.shard, cur.shard)
        };
        let (low, high) = limbs(cur_t - prev_t - 1);
        self.value = word_of(cur.value);
        self.prev_shard = felt_of(prev.shard);
        self.prev_clk = felt_of(prev.timestamp);
        self.compare_clk = felt_of(
            if same {
                1
            } else {
                0
            },
        );
        self.diff_16bit_limb = felt_of(low as u32);
        self.diff_8bit_limb = felt_of(high as u32);
        add_gap_checks(out, prev, cur);
    }
}

impl MemoryReadWriteCols {
    /// Whether the columns hold an access.
    pub open spec fn holds(&self, prev: MemoryRecord, cur: MemoryRecord) -> bool {
        &&& self.prev_value@ == word(prev.value)
        &&& self.access.holds(prev, cur)
    }

    /// Whether the columns hold a value and are otherwise zero.
    pub open spec fn holds_value(&self, x: u32) -> bool {
        &&& self.prev_value@ == word(0)
        &&& self.access.holds_value(x)
    }

    /// A value without an access.
    pub fn of_value(x: u32) -> (r: Self)
        ensures
            r.holds_value(x),
    {
        MemoryReadWriteCols { prev_value: word_of(0), access: MemoryAccessCols::of_value(x) }
    }

    /// Fills the columns with an access, and adds the checks that it asks for.
    pub fn populate(
        &mut self,
        prev: MemoryRecord,
        cur: MemoryRecord,
        out: &mut Vec<ByteLookupEvent>,
    )
        requires
            in_order(prev, cur),
        ensures
            final(self).holds(prev, cur),
            final(out)@ == old(out)@ + gap_checks(prev, cur),
    {
        self.prev_value = word_of(prev.value);
        self.access.populate(prev, cur, out);
    }
}

/// The smallest power of two that is at least `n`.
pub open spec fn is_next_pow2(r: int, n: int) -> bool {
    exists|k: nat|
        #![trigger pow2(k)]
        r == pow2(k) && n <= r && (k == 0 || pow2((k - 1) as nat) < n)
}

/// The smallest power of two that is at least `n`.
pub fn next_power_of_two(n: usize) -> (r: usize)
    requires
        n <= usize::MAX / 2,
    ensures
        is_next_pow2(r as int, n as int),
{
    let mut r: usize = 1;
    let ghost mut k: nat = 0;
    proof {
        lemma2_to64();
    }
    while r < n
        invariant
            n <= usize::MAX / 2,
            r == pow2(k),
            k == 0 || pow2((k - 1) as nat) < n,
            r >= 1,
        decreases
            if r < n {
                n - r
            } else {
                0
            },
    {
        proof {
            lemma_pow2_unfold(k + 1);
        }
        r = 2 * r;
        proof {
            k = k + 1;
        }
    }
    assert(r == pow2(k));
    r
}

/// Whether a table of `r` rows has the height for `n` real ones: that of its shape where one is given,
/// else the smallest power of two, and at least sixteen.
pub open spec fn is_height(r: nat, n: nat, shape_height: Option<usize>) -> bool {
    match shape_height {
        Some(h) => r == h,
        None => if n < 16 {
            r == 16
        } else {
            is_next_pow2(r as int, n as int)
        },
    }
}

/// The number of rows of a table with `n` real rows: that of its shape where one is given, else a
/// power of two, and at least sixteen.
pub fn padded_rows(n: usize, shape_height: Option<usize>) -> (r: usize)
    requires
        n <= usize::MAX / 2,
    ensures
        is_height(r as nat, n as nat, shape_height),
{
    match shape_height {
        Some(h) => h,
        None => if n < 16 {
            16
        } else {
            next_power_of_two(n)
        },
    }
}

/// The number whose bytes, lowest first, four field elements hold.
pub open spec fn number(bytes: Seq<Felt>) -> int {
    bytes[0].value + 0x100 * bytes[1].value + 0x1_0000 * bytes[2].value + 0x100_0000
        * bytes[3].value
}

/// The limbs of a number, put together, are its low twenty-four bits.
pub proof fn law_limbs_give_number(x: u32)
    ensures
        low_limb(x) + 0x1_0000 * high_limb(x) == x % 0x100_0000,
{
}

/// The bytes of a number, put together, are the number.
pub proof fn law_bytes_give_number(x: u32)
    ensures
        le_bytes(x).len() == 4,
        le_bytes(x)[0] + 0x100 * le_bytes(x)[1] + 0x1_0000 * le_bytes(x)[2] + 0x100_0000
            * le_bytes(x)[3] == x,
        word(x).len() == 4,
        number(word(x)) == x,
        forall|i: int| 0 <= i < 4 ==> (#[trigger] word(x)[i]).value == le_bytes(x)[i],
{
}

/// An access is in order exactly if its shard and time come after those of the access before it,
/// shards first.
pub proof fn law_order_of_accesses(prev: MemoryRecord, cur: MemoryRecord)
    ensures
        in_order(prev, cur) <==> prev.shard < cur.shard || (prev.shard == cur.shard
            && prev.timestamp < cur.timestamp),
{
}

/// Whether columns show an access to memory: its value in bytes, the shard and time of the access
/// before it, and in two limbs how many steps lie between the two, counted in time within a shard and
/// else in shards.
pub open spec fn shows(
    cols: MemoryAccessCols,
    value: u32,
    prev_shard: u32,
    prev_clk: u32,
    shard: u32,
    clk: u32,
) -> bool {
    let (same, low, high) = (
        cols.compare_clk.value,
        cols.diff_16bit_limb.value,
        cols.diff_8bit_limb.value,
    );
    &&& number(cols.value@) == value
    &&& forall|i: int| 0 <= i < 4 ==> (#[trigger] cols.value@[i]).value < 0x100
    &&& cols.prev_shard.value as int == prev_shard as int % (P as int)
    &&& cols.prev_clk.value as int == prev_clk as int % (P as int)
    &&& same == 0 || same == 1
    &&& same == 1 <==> prev_shard == shard
    &&& low < 0x1_0000
    &&& high < 0x100
    &&& (1 + low + 0x1_0000 * high - (if same == 1 {
        clk - prev_clk
    } else {
        shard - prev_shard
    })) % 0x100_0000 == 0
}

/// The columns of a read show the value that is read, and the access before it.
pub proof fn law_columns_show_read(cols: MemoryAccessCols, r: MemoryReadRecord)
    requires
        cols.holds(MemoryRecordEnum::Read(r).previous(), MemoryRecordEnum::Read(r).current()),
        r.prev_shard < r.shard || (r.prev_shard == r.shard && r.prev_timestamp < r.timestamp),
    ensures
        shows(cols, r.value, r.prev_shard, r.prev_timestamp, r.shard, r.timestamp),
{
    law_bytes_give_number(r.value);
    let d = if r.prev_shard == r.shard {
        (r.timestamp - r.prev_timestamp - 1) as u32
    } else {
        (r.shard - r.prev_shard - 1) as u32
    };
    law_limbs_give_number(d);
    lemma_distance(d);
}

/// The columns of a write show the value that is written, and the access before it.
pub proof fn law_columns_show_write(cols: MemoryAccessCols, w: MemoryWriteRecord)
    requires
        cols.holds(MemoryRecordEnum::Write(w).previous(), MemoryRecordEnum::Write(w).current()),
        w.prev_shard < w.shard || (w.prev_shard == w.shard && w.prev_timestamp < w.timestamp),
    ensures
        shows(cols, w.value, w.prev_shard, w.prev_timestamp, w.shard, w.timestamp),
{
    law_bytes_give_number(w.value);
    let d = if w.prev_shard == w.shard {
        (w.timestamp - w.prev_timestamp - 1) as u32
    } else {
        (w.shard - w.prev_shard - 1) as u32
    };
    law_limbs_give_number(d);
    lemma_distance(d);
}

proof fn lemma_distance(d: u32)
    ensures
        (d as int % 0x100_0000 - d) % 0x100_0000 == 0,
{
}

/// The columns of an access that may change the value also hold, in bytes, what memory held before
/// it: for a read the value that is read, for a write the one that is replaced.
pub proof fn law_columns_show_previous(cols: MemoryReadWriteCols, record: MemoryRecordEnum)
    requires
        cols.holds(record.previous(), record.current()),
    ensures
        record matches MemoryRecordEnum::Read(r) ==> number(cols.prev_value@) == r.value
            && number(cols.access.value@) == r.value,
        record matches MemoryRecordEnum::Write(w) ==> number(cols.prev_value@) == w.prev_value
            && number(cols.access.value@) == w.value,
        forall|i: int| 0 <= i < 4 ==> (#[trigger] cols.prev_value@[i]).value < 0x100,
{
    law_bytes_give_number(record.previous().value);
    law_bytes_give_number(record.current().value);
}

/// The range check of a number of sixteen bits names that number and nothing else.
pub open spec fn checks_u16(event: ByteLookupEvent, x: int) -> bool {
    &&& event.opcode is U16Range
    &&& event.a1 as int == x
    &&& event.a2 == 0 && event.b == 0 && event.c == 0
}

/// The range check of two bytes names them and nothing else.
pub open spec fn checks_u8(event: ByteLookupEvent, x: int, y: int) -> bool {
    &&& event.opcode is U8Range
    &&& event.b as int == x
    &&& event.c as int == y
    &&& event.a1 == 0 && event.a2 == 0
}

/// A table without a shape is a power of two high, has room for all real rows, has at least sixteen
/// rows, and is no higher than that takes: half of it would not do.
pub proof fn law_height_without_shape(r: nat, n: nat) -> (k: nat)
    requires
        is_height(r, n, None),
    ensures
        r == pow2(k),
        n <= r,
        16 <= r,
        r > 16 ==> r < 2 * n,
{
    lemma2_to64();
    if n < 16 {
        4
    } else {
        let k = choose|k: nat|
            #![trigger pow2(k)]
            r == pow2(k) && n <= r && (k == 0 || pow2((k - 1) as nat) < n);
        if k > 0 {
            lemma_pow2_unfold(k);
        }
        k
    }
}

/// A table with a shape is as high as the shape says, whatever its real rows.
pub proof fn law_height_of_shape(r: nat, n: nat, h: usize)
    requires
        is_height(r, n, Some(h)),
    ensures
        r == h,
{
}

} // verus!
