//! Words, records, their limbs and their order.

use crate::base::B256;
use crate::digits;
use crate::machine;
use crate::machine::{MemoryInstruction, TraceRecord};
use crate::order;
use crate::zincplus::limbs::RowLimbs;
use vstd::prelude::*;

verus! {

/// A word gives back the bytes that it was made of.
pub proof fn words_give_back_their_bytes(bytes: [u8; 32], word: B256, out: [u8; 32])
    requires
        call_ensures(<B256 as From<[u8; 32]>>::from, (bytes,), word),
        call_ensures(B256::fixed_be_bytes, (&word,), out),
    ensures
        out@ == bytes@,
{
}

/// Words compare by the first byte in which they differ, and are equal exactly
/// when their bytes are.
pub proof fn words_compare_by_their_first_difference(
    a: B256,
    b: B256,
    x: [u8; 32],
    y: [u8; 32],
    less: bool,
    same: bool,
)
    requires
        call_ensures(B256::fixed_be_bytes, (&a,), x),
        call_ensures(B256::fixed_be_bytes, (&b,), y),
        call_ensures(B256::less_than, (&a, &b), less),
        call_ensures(B256::equals, (&a, &b), same),
    ensures
        forall|i: int|
            0 <= i < 32 && #[trigger] x@[i] != y@[i] && (forall|j: int|
                0 <= j < i ==> #[trigger] x@[j] == y@[j]) ==> less == (x@[i] < y@[i]),
        x@ == y@ ==> !less,
        same == (x@ == y@),
{
    let c = digits::byte_digits(x@);
    let d = digits::byte_digits(y@);
    digits::lemma_positional_nonnegative(c, 0x100);
    digits::lemma_positional_nonnegative(d, 0x100);
    assert forall|i: int|
        0 <= i < 32 && #[trigger] x@[i] != y@[i] && (forall|j: int|
            0 <= j < i ==> #[trigger] x@[j] == y@[j]) implies less == (x@[i] < y@[i]) by {
        if x@[i] < y@[i] {
            digits::lemma_first_difference(c, d, 0x100, i);
        } else {
            digits::lemma_first_difference(d, c, 0x100, i);
        }
    }
    if x@ == y@ {
        assert(a@ == b@);
    }
    if same {
        assert(a == b);
    }
}

/// Bytes that write a number below `256` end in it and are zero elsewhere, and
/// so on for the number's other digits.
proof fn lemma_last_byte(bytes: Seq<u8>, n: int)
    requires
        bytes.len() > 0,
        digits::positional(digits::byte_digits(bytes), 0x100) == n,
    ensures
        bytes.last() == n % 0x100,
        digits::positional(digits::byte_digits(bytes.drop_last()), 0x100) == n / 0x100,
{
    let d = digits::byte_digits(bytes);
    assert(d.drop_last() =~= digits::byte_digits(bytes.drop_last()));
    assert(d.last() == bytes.last());
}

proof fn lemma_zero_bytes(bytes: Seq<u8>)
    requires
        digits::positional(digits::byte_digits(bytes), 0x100) == 0,
    ensures
        forall|i: int| 0 <= i < bytes.len() ==> #[trigger] bytes[i] == 0,
    decreases bytes.len(),
{
    if bytes.len() > 0 {
        lemma_last_byte(bytes, 0);
        lemma_zero_bytes(bytes.drop_last());
        assert forall|i: int| 0 <= i < bytes.len() implies #[trigger] bytes[i] == 0 by {
            if i < bytes.len() - 1 {
                assert(bytes.drop_last()[i] == 0);
            }
        }
    }
}

/// A word made of a number has its digits in base `256` as its last eight bytes,
/// most significant first, and zero bytes before them.
pub proof fn words_of_numbers_end_in_their_digits(n: u64, word: B256, out: [u8; 32])
    requires
        call_ensures(<B256 as From<u64>>::from, (n,), word),
        call_ensures(B256::fixed_be_bytes, (&word,), out),
    ensures
        forall|i: int| 0 <= i < 24 ==> #[trigger] out@[i] == 0,
        n == out@[24] * 0x100_0000_0000_0000 + out@[25] * 0x1_0000_0000_0000 + out@[26]
            * 0x100_0000_0000 + out@[27] * 0x1_0000_0000 + out@[28] * 0x100_0000 + out@[29] * 0x1_0000
            + out@[30] * 0x100 + out@[31],
{
    digits::lemma_positional_nonnegative(digits::byte_digits(out@), 0x100);
    let m = n as int;
    let b0 = out@;
    let b1 = b0.drop_last();
    let b2 = b1.drop_last();
    let b3 = b2.drop_last();
    let b4 = b3.drop_last();
    let b5 = b4.drop_last();
    let b6 = b5.drop_last();
    let b7 = b6.drop_last();
    let b8 = b7.drop_last();
    lemma_last_byte(b0, m);
    lemma_last_byte(b1, m / 0x100);
    lemma_last_byte(b2, m / 0x100 / 0x100);
    lemma_last_byte(b3, m / 0x100 / 0x100 / 0x100);
    lemma_last_byte(b4, m / 0x100 / 0x100 / 0x100 / 0x100);
    lemma_last_byte(b5, m / 0x100 / 0x100 / 0x100 / 0x100 / 0x100);
    lemma_last_byte(b6, m / 0x100 / 0x100 / 0x100 / 0x100 / 0x100 / 0x100);
    lemma_last_byte(b7, m / 0x100 / 0x100 / 0x100 / 0x100 / 0x100 / 0x100 / 0x100);
    assert(m / 0x100 / 0x100 / 0x100 / 0x100 / 0x100 / 0x100 / 0x100 / 0x100 == 0);
    lemma_zero_bytes(b8);
    assert forall|i: int| 0 <= i < 24 implies #[trigger] out@[i] == 0 by {
        assert(b8[i] == 0);
    }
}

/// A record gives back what it was made of.
pub proof fn records_give_back_their_parts(
    time_log: u64,
    stack_depth: u64,
    instruction: MemoryInstruction,
    address: B256,
    value: B256,
    record: TraceRecord,
    time: u64,
    depth: u64,
    access: MemoryInstruction,
    cell: B256,
    content: B256,
)
    requires
        call_ensures(
            TraceRecord::new,
            (time_log, stack_depth, instruction, address, value),
            record,
        ),
        call_ensures(TraceRecord::time_log, (&record,), time),
        call_ensures(TraceRecord::stack_depth, (&record,), depth),
        call_ensures(TraceRecord::instruction, (&record,), access),
        call_ensures(TraceRecord::address, (&record,), cell),
        call_ensures(TraceRecord::value, (&record,), content),
    ensures
        time == time_log,
        depth == stack_depth,
        access == instruction,
        cell == address,
        content == value,
        record@.time == time_log,
        record@.stack_depth == stack_depth,
        record@.write == (instruction is Write),
{
    B256::lemma_unique(cell, address);
    B256::lemma_unique(content, value);
}

/// Limb `p` of a row is four bytes of the address or the value, half of the time
/// or of the stack depth, or one for a write and zero for a read.
pub proof fn limbs_are_cut_from_the_record(
    record: &TraceRecord,
    row: RowLimbs,
    address: B256,
    value: B256,
    x: [u8; 32],
    y: [u8; 32],
    p: usize,
    limb: u32,
)
    requires
        call_ensures(RowLimbs::from_record, (record,), row),
        call_ensures(TraceRecord::address, (record,), address),
        call_ensures(TraceRecord::value, (record,), value),
        call_ensures(B256::fixed_be_bytes, (&address,), x),
        call_ensures(B256::fixed_be_bytes, (&value,), y),
        p < 21,
        call_ensures(RowLimbs::payload, (&row, p), limb),
    ensures
        call_requires(RowLimbs::payload, (&row, p)),
        p < 8 ==> limb == x@[4 * p] * 0x100_0000 + x@[4 * p + 1] * 0x1_0000 + x@[4 * p + 2] * 0x100
            + x@[4 * p + 3],
        p == 8 ==> limb == record@.time as int / 0x1_0000_0000,
        p == 9 ==> limb == record@.time as int % 0x1_0000_0000,
        p == 10 ==> limb == record@.stack_depth as int / 0x1_0000_0000,
        p == 11 ==> limb == record@.stack_depth as int % 0x1_0000_0000,
        12 <= p < 20 ==> limb == y@[4 * p - 48] * 0x100_0000 + y@[4 * p - 47] * 0x1_0000 + y@[4 * p
            - 46] * 0x100 + y@[4 * p - 45],
        p == 20 ==> limb == if record@.write {
            1u32
        } else {
            0
        },
{
    let s = row@;
    lemma_limbs_of_bytes(x@, s.subrange(0, 8));
    lemma_limbs_of_bytes(y@, s.subrange(12, 20));
    digits::lemma_two_limbs(s[8], s[9]);
    digits::lemma_two_limbs(s[10], s[11]);
    assert(s.subrange(8, 10) =~= seq![s[8], s[9]]);
    assert(s.subrange(10, 12) =~= seq![s[10], s[11]]);
    if p < 8 {
        assert(s.subrange(0, 8)[p as int] == digits::limb_of_bytes(x@, p as int));
    }
    if 12 <= p < 20 {
        assert(s.subrange(12, 20)[p - 12] == digits::limb_of_bytes(y@, p - 12));
    }
}

proof fn lemma_limbs_of_bytes(bytes: Seq<u8>, limbs: Seq<u32>)
    requires
        bytes.len() == 32,
        limbs.len() == 8,
        digits::limbs_value(limbs) == digits::bytes_value(bytes),
    ensures
        forall|j: int| 0 <= j < 8 ==> #[trigger] limbs[j] == digits::limb_of_bytes(bytes, j),
{
    let cut = Seq::new(8, |j: int| digits::limb_of_bytes(bytes, j) as u32);
    assert forall|j: int| 0 <= j < 8 implies #[trigger] cut[j] == digits::limb_of_bytes(
        bytes,
        j,
    ) by {
    }
    digits::lemma_bytes_regrouped(bytes, cut);
    digits::lemma_limbs_unique(limbs, cut);
}

/// The limbs that rows are compared by are their first ten.
pub proof fn compared_limbs_are_the_first_ten(row: RowLimbs, j: usize, compared: u32, limb: u32)
    requires
        j < 10,
        call_ensures(RowLimbs::lex_limb, (&row, j), compared),
        call_ensures(RowLimbs::payload, (&row, j), limb),
    ensures
        call_requires(RowLimbs::lex_limb, (&row, j)),
        compared == limb,
{
}

/// The order of a trace lists each position once, by address, then by time, then
/// by position.
pub proof fn orders_list_positions_by_address_and_time(records: &[TraceRecord], positions: Vec<usize>)
    requires
        call_ensures(order::sort_order, (records,), positions),
    ensures
        ({
            let order = positions@;
            &&& order.len() == records@.len()
            &&& forall|i: int| 0 <= i < order.len() ==> (#[trigger] order[i]) < order.len()
            &&& forall|i: int, j: int|
                0 <= i < j < order.len() ==> {
                    let a = records@[#[trigger] order[i] as int]@;
                    let b = records@[#[trigger] order[j] as int]@;
                    ||| a.address < b.address
                    ||| a.address == b.address && a.time < b.time
                    ||| a.address == b.address && a.time == b.time && order[i] < order[j]
                }
        }),
{
    lemma_listed(records@, positions@);
}

/// What it means, of the records, that positions are listed in order.
pub proof fn lemma_listed(records: Seq<TraceRecord>, order: Seq<usize>)
    requires
        order.len() == records.len(),
        forall|i: int| 0 <= i < order.len() ==> (#[trigger] order[i]) < order.len(),
        order::in_order(machine::accesses(records), order),
    ensures
        forall|i: int, j: int|
            0 <= i < j < order.len() ==> {
                let a = records[#[trigger] order[i] as int]@;
                let b = records[#[trigger] order[j] as int]@;
                ||| a.address < b.address
                ||| a.address == b.address && a.time < b.time
                ||| a.address == b.address && a.time == b.time && order[i] < order[j]
            },
{
    let o = machine::accesses(records);
    assert forall|i: int, j: int| 0 <= i < j < order.len() implies {
        let a = records[#[trigger] order[i] as int]@;
        let b = records[#[trigger] order[j] as int]@;
        ||| a.address < b.address
        ||| a.address == b.address && a.time < b.time
        ||| a.address == b.address && a.time == b.time && order[i] < order[j]
    } by {
        assert(order::comes_before(o, order[i] as int, order[j] as int));
        assert(o[order[i] as int] == records[order[i] as int]@);
        assert(o[order[j] as int] == records[order[j] as int]@);
    }
}

/// A reordered trace holds at each place the record at the listed position.
pub proof fn reordered_traces_hold_the_listed_records(
    records: &[TraceRecord],
    order: Vec<usize>,
    out: Vec<TraceRecord>,
)
    requires
        call_ensures(order::reordered, (records, &order), out),
    ensures
        out@.len() == order@.len(),
        forall|i: int| 0 <= i < order@.len() ==> #[trigger] out@[i] == records@[order@[i] as int],
{
}

/// Every list of positions of a trace can be reordered by.
pub proof fn all_lists_of_positions_are_taken(records: &[TraceRecord], order: Vec<usize>)
    requires
        forall|i: int| 0 <= i < order@.len() ==> (#[trigger] order@[i]) < records@.len(),
    ensures
        call_requires(order::reordered, (records, &order)),
{
}

} // verus!
