//! The table that is built for an execution trace.
//!
//! With `2^v` rows, the binary column of cell `p` of network state `g` is
//! `21 * g + p`; state zero is the sorted trace and state `2v - 1` the original
//! one. A record has the limbs of its address, time, stack depth and value, and
//! its instruction. The integer columns are the `1 + v` public ones, ten
//! selectors, the helper, two time selectors and the switches of `2v - 1` layers.

use crate::digits;
use crate::machine;
use crate::machine::{Access, TraceRecord};
use crate::order;
use crate::perm;
use crate::zincplus::benes;
use crate::zincplus::error::ZincMemoryError;
use crate::zincplus::layout;
use crate::zincplus::limbs;
use crate::zincplus::trace;
use crate::zincplus::trace::UairTrace;
use crate::zincplus::uair;
use crate::zincplus::unique;
use crate::zincplus::witness;
use vstd::arithmetic::power2::*;
use vstd::prelude::*;

verus! {

pub proof fn lemma_ordered(records: Seq<TraceRecord>)
    requires
        forall|i: int|
            0 <= i < records.len() - 1 ==> (#[trigger] records[i])@.time < records[i + 1]@.time,
        records.len() > 0,
    ensures
        witness::first_unordered(machine::accesses(records), 0) + 1 >= records.len(),
{
    let o = machine::accesses(records);
    witness::lemma_first_unordered(o, 0);
    let i = witness::first_unordered(o, 0);
    if i + 1 < o.len() {
        assert(records[i]@.time < records[i + 1]@.time);
    }
}

/// Building a table from any start fails for one of five reasons. The trace is
/// empty; or its first step that is not later repeats a time or goes back; or it
/// has `2^16` records or more; or the times of its padding rows, up to the
/// smallest power of two above its length and no smaller than eight, do not fit
/// 64 bits. Otherwise it succeeds, with that power of two of rows.
pub proof fn tables_are_refused_for_exactly_these_reasons(
    records: &[TraceRecord],
    out: Result<(UairTrace, usize), ZincMemoryError>,
)
    requires
        call_ensures(witness::build_uair_trace_any_start, (records,), out),
    ensures
        records@.len() == 0 ==> out == Err::<(UairTrace, usize), ZincMemoryError>(
            ZincMemoryError::EmptyTrace,
        ),
        forall|i: int|
            0 <= i < records@.len() - 1 && (#[trigger] records@[i])@.time >= records@[i + 1]@.time
                && (forall|j: int|
                0 <= j < i ==> (#[trigger] records@[j])@.time < records@[j + 1]@.time) ==> out
                == Err::<(UairTrace, usize), ZincMemoryError>(
                if records@[i]@.time == records@[i + 1]@.time {
                    ZincMemoryError::DuplicatedAccess { time_log: records@[i]@.time as u64 }
                } else {
                    ZincMemoryError::TimeNotIncreasing { time_log: records@[i + 1]@.time as u64 }
                },
            ),
        records@.len() > 0 && (forall|i: int|
            0 <= i < records@.len() - 1 ==> (#[trigger] records@[i])@.time < records@[i + 1]@.time)
            ==> {
            if records@.len() >= 0x1_0000 {
                out == Err::<(UairTrace, usize), ZincMemoryError>(ZincMemoryError::TraceTooLong)
            } else {
                exists|v: usize|
                    {
                        &&& 3 <= v <= 16
                        &&& records@.len() < #[trigger] pow2(v as nat)
                        &&& v == 3 || pow2((v - 1) as nat) <= records@.len()
                        &&& if records@.last()@.time + pow2(v as nat) - records@.len() > u64::MAX {
                            out == Err::<(UairTrace, usize), ZincMemoryError>(
                                ZincMemoryError::TimeLogOverflow,
                            )
                        } else {
                            out matches Ok((t, w)) && w == v
                        }
                    }
            }
        },
{
    let o = machine::accesses(records@);
    lemma2_to64();
    assert forall|i: int|
        0 <= i < records@.len() - 1 && (#[trigger] records@[i])@.time >= records@[i + 1]@.time && (
        forall|j: int|
            0 <= j < i ==> (#[trigger] records@[j])@.time < records@[j + 1]@.time) implies out
        == Err::<(UairTrace, usize), ZincMemoryError>(
        if records@[i]@.time == records@[i + 1]@.time {
            ZincMemoryError::DuplicatedAccess { time_log: records@[i]@.time as u64 }
        } else {
            ZincMemoryError::TimeNotIncreasing { time_log: records@[i + 1]@.time as u64 }
        },
    ) by {
        witness::lemma_first_unordered(o, 0);
        let k = witness::first_unordered(o, 0);
        if k < i {
            assert(records@[k]@.time < records@[k + 1]@.time);
        }
        if i < k {
            assert(o[i].time < o[i + 1].time);
        }
        assert(k == i);
        assert(o[i] == records@[i]@ && o[i + 1] == records@[i + 1]@);
    }
    if records@.len() > 0 && (forall|i: int|
        0 <= i < records@.len() - 1 ==> (#[trigger] records@[i])@.time < records@[i + 1]@.time) {
        lemma_ordered(records@);
        assert(o.last() == records@.last()@);
        if records@.len() < 0x1_0000 {
            witness::row_counts_are_minimal(records@.len() as int);
            let v = witness::exponent_for(records@.len() as int) as usize;
            assert(records@.len() < pow2(v as nat));
            if v > 3 {
                assert(records@.len() >= pow2((v - 1) as nat));
            }
        }
    }
}

/// A trace of fewer than `2^16` records whose times increase and leave room for
/// `2^16` padding rows is never refused, and with a start at time zero neither
/// builder refuses it.
pub proof fn ordered_traces_are_never_refused(
    records: &[TraceRecord],
    any_start: Result<(UairTrace, usize), ZincMemoryError>,
    strict: Result<(UairTrace, usize), ZincMemoryError>,
)
    requires
        call_ensures(witness::build_uair_trace_any_start, (records,), any_start),
        call_ensures(witness::build_uair_trace, (records,), strict),
        0 < records@.len() < 0x1_0000,
        forall|i: int|
            0 <= i < records@.len() - 1 ==> (#[trigger] records@[i])@.time < records@[i + 1]@.time,
        records@.last()@.time <= u64::MAX - 0x1_0000,
    ensures
        any_start is Ok,
        records@[0]@.time == 0 ==> strict is Ok,
{
    let o = machine::accesses(records@);
    lemma_ordered(records@);
    lemma2_to64();
    assert(o.last() == records@.last()@);
    assert(o[0] == records@[0]@);
    witness::row_counts_are_minimal(records@.len() as int);
    let v = witness::exponent_for(records@.len() as int);
    if v < 16 {
        lemma_pow2_strictly_increases(v as nat, 16);
    }
    assert(witness::rejection(o) is None);
}

/// The builder that asks for a start at time zero refuses any other start for its
/// first time, whatever else is wrong; on all other traces it gives what the
/// other builder gives, cell for cell.
pub proof fn starts_at_time_zero_are_built_the_same(
    records: &[TraceRecord],
    strict: Result<(UairTrace, usize), ZincMemoryError>,
    any_start: Result<(UairTrace, usize), ZincMemoryError>,
)
    requires
        call_ensures(witness::build_uair_trace, (records,), strict),
        call_ensures(witness::build_uair_trace_any_start, (records,), any_start),
    ensures
        records@.len() > 0 && records@[0]@.time != 0 ==> strict == Err::<
            (UairTrace, usize),
            ZincMemoryError,
        >(ZincMemoryError::FirstTimeNonZero { time_log: records@[0]@.time as u64 }),
        records@.len() == 0 || records@[0]@.time == 0 ==> match (strict, any_start) {
            (Err(e), Err(f)) => e == f,
            (Ok((a, v)), Ok((b, w))) => {
                &&& v == w
                &&& a.binary_poly@.len() == b.binary_poly@.len()
                &&& a.int@.len() == b.int@.len()
                &&& forall|c: int|
                    0 <= c < a.binary_poly@.len() ==> (#[trigger] a.binary_poly@[c])@
                        == b.binary_poly@[c]@
                &&& forall|c: int| 0 <= c < a.int@.len() ==> (#[trigger] a.int@[c])@ == b.int@[c]@
            },
            _ => false,
        },
{
    unique::builders_differ_on_the_first_time_only(records, strict, any_start);
    if strict is Ok && any_start is Ok {
        lemma_same_columns(strict->Ok_0.0, any_start->Ok_0.0, strict->Ok_0.1 as int);
    }
}

pub proof fn lemma_same_columns(a: UairTrace, b: UairTrace, v: int)
    requires
        unique::same_cells(a, b, v),
    ensures
        a.binary_poly@.len() == b.binary_poly@.len(),
        a.int@.len() == b.int@.len(),
        forall|c: int|
            0 <= c < a.binary_poly@.len() ==> (#[trigger] a.binary_poly@[c])@ == b.binary_poly@[c]@,
        forall|c: int| 0 <= c < a.int@.len() ==> (#[trigger] a.int@[c])@ == b.int@[c]@,
{
    assert forall|c: int| 0 <= c < a.binary_poly@.len() implies (#[trigger] a.binary_poly@[c])@
        == b.binary_poly@[c]@ by {
        assert(a.binary_poly@[c]@.len() == b.binary_poly@[c]@.len());
        assert forall|i: int| 0 <= i < a.binary_poly@[c]@.len() implies a.binary_poly@[c]@[i]
            == b.binary_poly@[c]@[i] by {
            assert(a.limb(c, i) == b.limb(c, i));
        }
        assert(a.binary_poly@[c]@ =~= b.binary_poly@[c]@);
    }
    assert forall|c: int| 0 <= c < a.int@.len() implies (#[trigger] a.int@[c])@ == b.int@[c]@ by {
        assert(a.int@[c]@.len() == b.int@[c]@.len());
        assert forall|i: int| 0 <= i < a.int@[c]@.len() implies a.int@[c]@[i] == b.int@[c]@[i] by {
            assert(a.cell(c, i) == b.cell(c, i));
        }
        assert(a.int@[c]@ =~= b.int@[c]@);
    }
}

/// The order that a table was built in.
proof fn lemma_built(
    records: &[TraceRecord],
    t: UairTrace,
    v: usize,
) -> (order: Seq<usize>)
    requires
        call_ensures(witness::build_uair_trace, (records,), Ok((t, v))) || call_ensures(
            witness::build_uair_trace_any_start,
            (records,),
            Ok((t, v)),
        ),
    ensures
        layout::supported(v as int),
        0 < records@.len() < pow2(v as nat),
        crate::consistency::time_increases(machine::accesses(records@)),
        witness::sorts(order, machine::accesses(records@)),
        witness::is_witness(t, v as int, machine::accesses(records@), order),
{
    let o = machine::accesses(records@);
    witness::lemma_accepted(o);
    choose|order: Seq<usize>| #[trigger]
        witness::sorts(order, o) && witness::is_witness(t, v as int, o, order)
}

/// A table has all its columns, each with a cell per row, and its public columns
/// tell the first row and, bit by bit, the rows whose index has the bit clear.
pub proof fn tables_have_all_columns(records: &[TraceRecord], t: UairTrace, v: usize)
    requires
        call_ensures(witness::build_uair_trace, (records,), Ok((t, v))) || call_ensures(
            witness::build_uair_trace_any_start,
            (records,),
            Ok((t, v)),
        ),
    ensures
        t.binary_poly@.len() == 42 * v + 2,
        t.int@.len() == 3 * v + 13,
        forall|c: int|
            0 <= c < 42 * v + 2 ==> (#[trigger] t.binary_poly@[c])@.len() == pow2(v as nat),
        forall|c: int| 0 <= c < 3 * v + 13 ==> (#[trigger] t.int@[c])@.len() == pow2(v as nat),
        forall|i: int|
            0 <= i < pow2(v as nat) ==> #[trigger] t.int@[0]@[i] == if i == 0 {
                1i64
            } else {
                0
            },
        forall|k: int, i: int|
            0 <= k < v && 0 <= i < pow2(v as nat) ==> #[trigger] t.int@[1 + k]@[i] == if (i / pow2(
                k as nat,
            ) as int) % 2 == 0 {
                1i64
            } else {
                0
            },
{
    let order = lemma_built(records, t, v);
    assert forall|i: int| 0 <= i < pow2(v as nat) implies #[trigger] t.int@[0]@[i] == if i == 0 {
        1i64
    } else {
        0
    } by {
        assert(t.cell(0, i) == trace::public_cell(0, i));
    }
    assert forall|k: int, i: int|
        0 <= k < v && 0 <= i < pow2(v as nat) implies #[trigger] t.int@[1 + k]@[i] == if (i / pow2(
        k as nat,
    ) as int) % 2 == 0 {
        1i64
    } else {
        0
    } by {
        assert(t.cell(1 + k, i) == trace::public_cell(1 + k, i));
        benes::upper_wires_have_a_clear_stride_bit(i, k as nat);
    }
}

/// The public columns tell the first row and, bit by bit, the rows whose index
/// has the bit clear.
pub proof fn public_columns_tell_rows_and_bits(v: usize, columns: Vec<Vec<i64>>)
    requires
        v < usize::BITS,
        call_ensures(witness::public_int_columns, (v,), columns),
    ensures
        call_requires(witness::public_int_columns, (v,)),
        columns@.len() == 1 + v,
        forall|c: int| 0 <= c <= v ==> (#[trigger] columns@[c])@.len() == pow2(v as nat),
        forall|i: int|
            0 <= i < pow2(v as nat) ==> #[trigger] columns@[0]@[i] == if i == 0 {
                1i64
            } else {
                0
            },
        forall|k: int, i: int|
            0 <= k < v && 0 <= i < pow2(v as nat) ==> #[trigger] columns@[1 + k]@[i] == if (i / pow2(
                k as nat,
            ) as int) % 2 == 0 {
                1i64
            } else {
                0
            },
{
    assert forall|k: int, i: int|
        0 <= k < v && 0 <= i < pow2(v as nat) implies #[trigger] columns@[1 + k]@[i] == if (i / pow2(
        k as nat,
    ) as int) % 2 == 0 {
        1i64
    } else {
        0
    } by {
        assert(columns@[1 + k]@[i] == trace::public_cell(1 + k, i));
        benes::upper_wires_have_a_clear_stride_bit(i, k as nat);
    }
}

/// The limbs of row `i` of network state `g` write an access.
proof fn lemma_row_written(t: UairTrace, g: int, i: int, a: Access)
    requires
        limbs::encodes(trace::payload(t, g, i), a),
    ensures
        a.address == t.binary_poly@[21 * g + 0]@[i] * 0x1_0000_0000_0000_0000_0000_0000_0000_0000_0000_0000_0000_0000_0000_0000int + t.binary_poly@[21 * g + 1]@[i] * 0x1_0000_0000_0000_0000_0000_0000_0000_0000_0000_0000_0000_0000int + t.binary_poly@[21 * g + 2]@[i] * 0x1_0000_0000_0000_0000_0000_0000_0000_0000_0000_0000int + t.binary_poly@[21 * g + 3]@[i] * 0x1_0000_0000_0000_0000_0000_0000_0000_0000int + t.binary_poly@[21 * g + 4]@[i] * 0x1_0000_0000_0000_0000_0000_0000int + t.binary_poly@[21 * g + 5]@[i] * 0x1_0000_0000_0000_0000int + t.binary_poly@[21 * g + 6]@[i] * 0x1_0000_0000int + t.binary_poly@[21 * g + 7]@[i],
        a.time == t.binary_poly@[21 * g + 8]@[i] * 0x1_0000_0000 + t.binary_poly@[21 * g + 9]@[i],
        a.stack_depth == t.binary_poly@[21 * g + 10]@[i] * 0x1_0000_0000 + t.binary_poly@[21 * g + 11]@[i],
        a.value == t.binary_poly@[21 * g + 12]@[i] * 0x1_0000_0000_0000_0000_0000_0000_0000_0000_0000_0000_0000_0000_0000_0000int + t.binary_poly@[21 * g + 13]@[i] * 0x1_0000_0000_0000_0000_0000_0000_0000_0000_0000_0000_0000_0000int + t.binary_poly@[21 * g + 14]@[i] * 0x1_0000_0000_0000_0000_0000_0000_0000_0000_0000_0000int + t.binary_poly@[21 * g + 15]@[i] * 0x1_0000_0000_0000_0000_0000_0000_0000_0000int + t.binary_poly@[21 * g + 16]@[i] * 0x1_0000_0000_0000_0000_0000_0000int + t.binary_poly@[21 * g + 17]@[i] * 0x1_0000_0000_0000_0000int + t.binary_poly@[21 * g + 18]@[i] * 0x1_0000_0000int + t.binary_poly@[21 * g + 19]@[i],
        t.binary_poly@[21 * g + 20]@[i] == if a.write {
            1u32
        } else {
            0
        },
{
    let row = trace::payload(t, g, i);
    digits::lemma_eight_limbs(row.subrange(0, 8));
    digits::lemma_eight_limbs(row.subrange(12, 20));
    digits::lemma_two_limbs(row[8], row[9]);
    digits::lemma_two_limbs(row[10], row[11]);
    assert(row.subrange(8, 10) =~= seq![row[8], row[9]]);
    assert(row.subrange(10, 12) =~= seq![row[10], row[11]]);
}

/// The rows of the last network state write the records of the trace, in
/// execution order.
pub proof fn original_rows_write_the_records(
    records: &[TraceRecord],
    t: UairTrace,
    v: usize,
    i: int,
)
    requires
        call_ensures(witness::build_uair_trace, (records,), Ok((t, v))) || call_ensures(
            witness::build_uair_trace_any_start,
            (records,),
            Ok((t, v)),
        ),
        0 <= i < records@.len(),
    ensures
        records@[i]@.address == t.binary_poly@[21 * (2 * v - 1) + 0]@[i] * 0x1_0000_0000_0000_0000_0000_0000_0000_0000_0000_0000_0000_0000_0000_0000int + t.binary_poly@[21 * (2 * v - 1) + 1]@[i] * 0x1_0000_0000_0000_0000_0000_0000_0000_0000_0000_0000_0000_0000int + t.binary_poly@[21 * (2 * v - 1) + 2]@[i] * 0x1_0000_0000_0000_0000_0000_0000_0000_0000_0000_0000int + t.binary_poly@[21 * (2 * v - 1) + 3]@[i] * 0x1_0000_0000_0000_0000_0000_0000_0000_0000int + t.binary_poly@[21 * (2 * v - 1) + 4]@[i] * 0x1_0000_0000_0000_0000_0000_0000int + t.binary_poly@[21 * (2 * v - 1) + 5]@[i] * 0x1_0000_0000_0000_0000int + t.binary_poly@[21 * (2 * v - 1) + 6]@[i] * 0x1_0000_0000int + t.binary_poly@[21 * (2 * v - 1) + 7]@[i],
        records@[i]@.time == t.binary_poly@[21 * (2 * v - 1) + 8]@[i] * 0x1_0000_0000 + t.binary_poly@[21 * (2 * v - 1) + 9]@[i],
        records@[i]@.stack_depth == t.binary_poly@[21 * (2 * v - 1) + 10]@[i] * 0x1_0000_0000 + t.binary_poly@[21 * (2 * v - 1) + 11]@[i],
        records@[i]@.value == t.binary_poly@[21 * (2 * v - 1) + 12]@[i] * 0x1_0000_0000_0000_0000_0000_0000_0000_0000_0000_0000_0000_0000_0000_0000int + t.binary_poly@[21 * (2 * v - 1) + 13]@[i] * 0x1_0000_0000_0000_0000_0000_0000_0000_0000_0000_0000_0000_0000int + t.binary_poly@[21 * (2 * v - 1) + 14]@[i] * 0x1_0000_0000_0000_0000_0000_0000_0000_0000_0000_0000int + t.binary_poly@[21 * (2 * v - 1) + 15]@[i] * 0x1_0000_0000_0000_0000_0000_0000_0000_0000int + t.binary_poly@[21 * (2 * v - 1) + 16]@[i] * 0x1_0000_0000_0000_0000_0000_0000int + t.binary_poly@[21 * (2 * v - 1) + 17]@[i] * 0x1_0000_0000_0000_0000int + t.binary_poly@[21 * (2 * v - 1) + 18]@[i] * 0x1_0000_0000int + t.binary_poly@[21 * (2 * v - 1) + 19]@[i],
        t.binary_poly@[21 * (2 * v - 1) + 20]@[i] == if records@[i]@.write {
            1u32
        } else {
            0
        },
{
    let order = lemma_built(records, t, v);
    let o = machine::accesses(records@);
    let n = pow2(v as nat) as int;
    assert(witness::padded_original(o, order, n)[i] == records@[i]@);
    assert(limbs::encodes(
        trace::payload(t, 2 * v - 1, i),
        witness::padded_original(o, order, n)[i],
    ));
    lemma_row_written(t, 2 * v - 1, i, records@[i]@);
}

/// The rows of the last network state past the trace are reads, of the address
/// and the value of the record that is last by address and time, at the times
/// that follow. So the table writes what the trace writes, and nothing else.
pub proof fn padding_rows_are_reads_of_the_last_record(
    records: &[TraceRecord],
    t: UairTrace,
    v: usize,
    i: int,
    m: int,
)
    requires
        call_ensures(witness::build_uair_trace, (records,), Ok((t, v))) || call_ensures(
            witness::build_uair_trace_any_start,
            (records,),
            Ok((t, v)),
        ),
        records@.len() <= i < pow2(v as nat),
        0 <= m < records@.len(),
        forall|k: int|
            0 <= k < records@.len() ==> {
                ||| (#[trigger] records@[k])@.address < records@[m]@.address
                ||| records@[k]@.address == records@[m]@.address && records@[k]@.time
                    <= records@[m]@.time
            },
    ensures
        t.binary_poly@[21 * (2 * v - 1) + 20]@[i] == 0,
        records@[m]@.address == t.binary_poly@[21 * (2 * v - 1) + 0]@[i] * 0x1_0000_0000_0000_0000_0000_0000_0000_0000_0000_0000_0000_0000_0000_0000int + t.binary_poly@[21 * (2 * v - 1) + 1]@[i] * 0x1_0000_0000_0000_0000_0000_0000_0000_0000_0000_0000_0000_0000int + t.binary_poly@[21 * (2 * v - 1) + 2]@[i] * 0x1_0000_0000_0000_0000_0000_0000_0000_0000_0000_0000int + t.binary_poly@[21 * (2 * v - 1) + 3]@[i] * 0x1_0000_0000_0000_0000_0000_0000_0000_0000int + t.binary_poly@[21 * (2 * v - 1) + 4]@[i] * 0x1_0000_0000_0000_0000_0000_0000int + t.binary_poly@[21 * (2 * v - 1) + 5]@[i] * 0x1_0000_0000_0000_0000int + t.binary_poly@[21 * (2 * v - 1) + 6]@[i] * 0x1_0000_0000int + t.binary_poly@[21 * (2 * v - 1) + 7]@[i],
        records@[m]@.value == t.binary_poly@[21 * (2 * v - 1) + 12]@[i] * 0x1_0000_0000_0000_0000_0000_0000_0000_0000_0000_0000_0000_0000_0000_0000int + t.binary_poly@[21 * (2 * v - 1) + 13]@[i] * 0x1_0000_0000_0000_0000_0000_0000_0000_0000_0000_0000_0000_0000int + t.binary_poly@[21 * (2 * v - 1) + 14]@[i] * 0x1_0000_0000_0000_0000_0000_0000_0000_0000_0000_0000int + t.binary_poly@[21 * (2 * v - 1) + 15]@[i] * 0x1_0000_0000_0000_0000_0000_0000_0000_0000int + t.binary_poly@[21 * (2 * v - 1) + 16]@[i] * 0x1_0000_0000_0000_0000_0000_0000int + t.binary_poly@[21 * (2 * v - 1) + 17]@[i] * 0x1_0000_0000_0000_0000int + t.binary_poly@[21 * (2 * v - 1) + 18]@[i] * 0x1_0000_0000int + t.binary_poly@[21 * (2 * v - 1) + 19]@[i],
        records@[m]@.stack_depth == t.binary_poly@[21 * (2 * v - 1) + 10]@[i] * 0x1_0000_0000 + t.binary_poly@[21 * (2 * v - 1) + 11]@[i],
        records@.last()@.time + 1 + i - records@.len() == t.binary_poly@[21 * (2 * v - 1) + 8]@[i] * 0x1_0000_0000 + t.binary_poly@[21 * (2 * v - 1) + 9]@[i],
{
    let order = lemma_built(records, t, v);
    let o = machine::accesses(records@);
    let n = pow2(v as nat) as int;
    let len = records@.len() as int;
    let last = order[len - 1] as int;
    assert(order[len - 1] < order.len());
    let k = perm::lemma_permutation_reaches(order, m);
    if k < len - 1 {
        assert(order::comes_before(o, order[k] as int, order[len - 1] as int));
        assert(o[m].time < o[last].time || o[m].address != o[last].address) by {
            if m < last {
                assert(o[m].time < o[last].time);
            } else if last < m {
                assert(o[last].time < o[m].time);
            }
        }
        assert(records@[last]@ == o[last] && records@[m]@ == o[m]);
        assert(false);
    }
    assert(last == m);
    let a = witness::padded_original(o, order, n)[i];
    assert(witness::sorted_trace(o, order).last() == records@[m]@);
    assert(o.last() == records@.last()@);
    assert(limbs::encodes(trace::payload(t, 2 * v - 1, i), a));
    lemma_row_written(t, 2 * v - 1, i, a);
}

/// Rows that hold the same padded access hold the same limbs.
proof fn lemma_same_row(
    records: &[TraceRecord],
    t: UairTrace,
    v: usize,
    order: Seq<usize>,
    i: int,
    j: int,
)
    requires
        0 <= i < pow2(v as nat),
        0 <= j < pow2(v as nat),
        witness::is_witness(t, v as int, machine::accesses(records@), order),
        witness::padded_sorted(machine::accesses(records@), order, pow2(v as nat) as int)[i]
            == witness::padded_original(machine::accesses(records@), order, pow2(v as nat) as int)[j],
    ensures
        forall|p: int|
            0 <= p < 21 ==> #[trigger] t.binary_poly@[p]@[i] == t.binary_poly@[21 * (2 * v - 1)
                + p]@[j],
{
    let o = machine::accesses(records@);
    let n = pow2(v as nat) as int;
    let a = witness::padded_sorted(o, order, n)[i];
    assert(limbs::encodes(trace::payload(t, 0, i), a));
    assert(limbs::encodes(trace::payload(t, 2 * v - 1, j), a));
    limbs::lemma_encoding_unique(trace::payload(t, 0, i), trace::payload(t, 2 * v - 1, j), a);
    assert forall|p: int| 0 <= p < 21 implies #[trigger] t.binary_poly@[p]@[i]
        == t.binary_poly@[21 * (2 * v - 1) + p]@[j] by {
        assert(trace::payload(t, 0, i)[p] == trace::payload(t, 2 * v - 1, j)[p]);
    }
}

/// Every row of the first network state is a row of the last one: that of a
/// record, or the same padding row.
pub proof fn sorted_rows_are_original_rows(
    records: &[TraceRecord],
    t: UairTrace,
    v: usize,
    i: int,
) -> (j: int)
    requires
        call_ensures(witness::build_uair_trace, (records,), Ok((t, v))) || call_ensures(
            witness::build_uair_trace_any_start,
            (records,),
            Ok((t, v)),
        ),
        0 <= i < pow2(v as nat),
    ensures
        0 <= j < pow2(v as nat),
        i < records@.len() <==> j < records@.len(),
        i >= records@.len() ==> j == i,
        forall|p: int|
            0 <= p < 21 ==> #[trigger] t.binary_poly@[p]@[i] == t.binary_poly@[21 * (2 * v - 1)
                + p]@[j],
{
    let order = lemma_built(records, t, v);
    let o = machine::accesses(records@);
    if i < o.len() {
        assert(order[i] < order.len());
        let j = order[i] as int;
        lemma_same_row(records, t, v, order, i, j);
        j
    } else {
        lemma_same_row(records, t, v, order, i, i);
        i
    }
}

/// Every row of the last network state is a row of the first one.
pub proof fn original_rows_are_sorted_rows(
    records: &[TraceRecord],
    t: UairTrace,
    v: usize,
    j: int,
) -> (i: int)
    requires
        call_ensures(witness::build_uair_trace, (records,), Ok((t, v))) || call_ensures(
            witness::build_uair_trace_any_start,
            (records,),
            Ok((t, v)),
        ),
        0 <= j < pow2(v as nat),
    ensures
        0 <= i < pow2(v as nat),
        i < records@.len() <==> j < records@.len(),
        j >= records@.len() ==> i == j,
        forall|p: int|
            0 <= p < 21 ==> #[trigger] t.binary_poly@[p]@[i] == t.binary_poly@[21 * (2 * v - 1)
                + p]@[j],
{
    let order = lemma_built(records, t, v);
    let o = machine::accesses(records@);
    if j < o.len() {
        let i = perm::lemma_permutation_reaches(order, j);
        lemma_same_row(records, t, v, order, i, j);
        i
    } else {
        lemma_same_row(records, t, v, order, j, j);
        j
    }
}

/// From each row of the first network state to the next, address and time
/// increase, limb by limb; the selectors tell the first limb that differs, the
/// slack how much more than one it grows by, and the helper is minus one where
/// that limb is of the time and the next row reads, else zero.
pub proof fn sorted_rows_increase_as_the_selectors_tell(
    records: &[TraceRecord],
    t: UairTrace,
    v: usize,
    i: int,
) -> (k: int)
    requires
        call_ensures(witness::build_uair_trace, (records,), Ok((t, v))) || call_ensures(
            witness::build_uair_trace_any_start,
            (records,),
            Ok((t, v)),
        ),
        0 <= i < pow2(v as nat) - 1,
    ensures
        0 <= k < 10,
        forall|p: int|
            0 <= p < k ==> #[trigger] t.binary_poly@[p]@[i] == t.binary_poly@[p]@[i + 1],
        t.binary_poly@[k]@[i + 1] == t.binary_poly@[k]@[i] + 1 + t.binary_poly@[42 * v]@[i],
        forall|j: int|
            0 <= j < 10 ==> #[trigger] t.int@[v + 1 + j]@[i] == if j == k {
                1i64
            } else {
                0
            },
        t.int@[v + 11]@[i] == if k >= 8 && t.binary_poly@[20]@[i + 1] == 0 {
            -1i64
        } else {
            0
        },
{
    let order = lemma_built(records, t, v);
    let vi = v as int;
    let row = trace::row_at(t, vi, i);
    assert(witness::framed(vi, row));
    let k = choose|k: int|
        0 <= k < layout::NUM_LEX_LIMBS && #[trigger] uair::key_step(vi, row, k);
    unique::lemma_row_limbs(t, vi, i);
    assert forall|p: int| 0 <= p < k implies #[trigger] t.binary_poly@[p]@[i]
        == t.binary_poly@[p]@[i + 1] by {
        assert(uair::below(vi, row, 0, p, 1) == uair::here(row, 0, p));
        assert(trace::payload(t, 0, i)[p] == t.limb(p, i));
        assert(trace::payload(t, 0, i + 1)[p] == t.limb(p, i + 1));
    }
    assert(uair::below(vi, row, 0, k, 1) == trace::payload(t, 0, i + 1)[k]);
    assert(uair::here(row, 0, k) == trace::payload(t, 0, i)[k]);
    assert(trace::payload(t, 0, i)[k] == t.limb(k, i));
    assert(trace::payload(t, 0, i + 1)[k] == t.limb(k, i + 1));
    assert(row.up[layout::slack_sorted(vi)] == t.limb(layout::slack_sorted(vi), i));
    assert forall|j: int| 0 <= j < 10 implies #[trigger] t.int@[v + 1 + j]@[i] == if j == k {
        1i64
    } else {
        0
    } by {
        assert(uair::selector(vi, row, j) == t.cell(v + 1 + j, i));
    }
    assert(uair::helper(vi, row) == t.cell(v + 11, i));
    assert(uair::below(vi, row, 0, 20, 1) == trace::payload(t, 0, i + 1)[20]);
    assert(trace::payload(t, 0, i + 1)[20] == t.limb(20, i + 1));
    let o = machine::accesses(records@);
    let n = pow2(v as nat) as int;
    assert(limbs::encodes(
        trace::payload(t, 0, i + 1),
        witness::padded_sorted(o, order, n)[i + 1],
    ));
    k
}

/// From each row of the last network state to the next the time increases; the
/// time selectors tell whether its high limb does, and the slack how much more
/// than one the selected limb grows by.
pub proof fn original_times_increase_as_the_selectors_tell(
    records: &[TraceRecord],
    t: UairTrace,
    v: usize,
    i: int,
)
    requires
        call_ensures(witness::build_uair_trace, (records,), Ok((t, v))) || call_ensures(
            witness::build_uair_trace_any_start,
            (records,),
            Ok((t, v)),
        ),
        0 <= i < pow2(v as nat) - 1,
    ensures
        ({
            let hi = t.binary_poly@[21 * (2 * v - 1) + 8]@;
            let lo = t.binary_poly@[21 * (2 * v - 1) + 9]@;
            let slack = t.binary_poly@[42 * v + 1]@[i];
            if hi[i] == hi[i + 1] {
                &&& t.int@[v + 12]@[i] == 0
                &&& t.int@[v + 13]@[i] == 1
                &&& lo[i + 1] == lo[i] + 1 + slack
            } else {
                &&& t.int@[v + 12]@[i] == 1
                &&& t.int@[v + 13]@[i] == 0
                &&& hi[i + 1] == hi[i] + 1 + slack
            }
        }),
{
    let order = lemma_built(records, t, v);
    let vi = v as int;
    let g = 2 * vi - 1;
    let row = trace::row_at(t, vi, i);
    assert(witness::framed(vi, row));
    unique::lemma_row_limbs(t, vi, i);
    assert(uair::here(row, g, 8) == trace::payload(t, g, i)[8]);
    assert(uair::here(row, g, 9) == trace::payload(t, g, i)[9]);
    assert(uair::below(vi, row, g, 8, 1) == trace::payload(t, g, i + 1)[8]);
    assert(uair::below(vi, row, g, 9, 1) == trace::payload(t, g, i + 1)[9]);
    assert(trace::payload(t, g, i)[8] == t.limb(21 * g + 8, i));
    assert(trace::payload(t, g, i)[9] == t.limb(21 * g + 9, i));
    assert(trace::payload(t, g, i + 1)[8] == t.limb(21 * g + 8, i + 1));
    assert(trace::payload(t, g, i + 1)[9] == t.limb(21 * g + 9, i + 1));
    assert(row.int[v + 12] == t.cell(v + 12, i));
    assert(row.int[v + 13] == t.cell(v + 13, i));
    assert(row.up[42 * v + 1] == t.limb(42 * v + 1, i));
}

/// In the last row the selectors, the helper and the slacks are zero.
pub proof fn last_rows_select_nothing(records: &[TraceRecord], t: UairTrace, v: usize)
    requires
        call_ensures(witness::build_uair_trace, (records,), Ok((t, v))) || call_ensures(
            witness::build_uair_trace_any_start,
            (records,),
            Ok((t, v)),
        ),
    ensures
        forall|c: int| v + 1 <= c < v + 14 ==> #[trigger] t.int@[c]@[pow2(v as nat) - 1] == 0,
        t.binary_poly@[42 * v]@[pow2(v as nat) - 1] == 0,
        t.binary_poly@[42 * v + 1]@[pow2(v as nat) - 1] == 0,
{
    let order = lemma_built(records, t, v);
    let n = pow2(v as nat) as int;
    let row = trace::row_at(t, v as int, n - 1);
    assert(row.up[42 * v] == t.limb(42 * v, n - 1));
    assert(row.up[42 * v + 1] == t.limb(42 * v + 1, n - 1));
    assert forall|c: int| v + 1 <= c < v + 14 implies #[trigger] t.int@[c]@[n - 1] == 0 by {
        assert(row.int[c] == t.cell(c, n - 1));
    }
}

/// Layer `l` of the network pairs the rows whose indices differ in bit
/// `v - 1 - l`, and from layer `v` on in bit `l - v + 1`. It swaps all cells of a
/// pair where the switch of its upper row is one and keeps them where it is zero;
/// the switch of a lower row is zero.
pub proof fn layers_swap_pairs_as_their_switches_tell(
    records: &[TraceRecord],
    t: UairTrace,
    v: usize,
    l: int,
    s: int,
    i: int,
)
    requires
        call_ensures(witness::build_uair_trace, (records,), Ok((t, v))) || call_ensures(
            witness::build_uair_trace_any_start,
            (records,),
            Ok((t, v)),
        ),
        0 <= l < 2 * v - 1,
        s == pow2(
            (if l < v {
                v - 1 - l
            } else {
                l - v + 1
            }) as nat,
        ),
        0 <= i < pow2(v as nat),
    ensures
        ({
            let switch = t.int@[v + 14 + l]@[i];
            if (i / s) % 2 == 0 {
                &&& switch == 0 || switch == 1
                &&& i + s < pow2(v as nat)
                &&& forall|p: int|
                    0 <= p < 21 ==> #[trigger] t.binary_poly@[21 * (l + 1) + p]@[i]
                        == t.binary_poly@[21 * l + p]@[if switch == 1 {
                        i + s
                    } else {
                        i
                    }]
                &&& forall|p: int|
                    0 <= p < 21 ==> #[trigger] t.binary_poly@[21 * (l + 1) + p]@[i + s]
                        == t.binary_poly@[21 * l + p]@[if switch == 1 {
                        i
                    } else {
                        i + s
                    }]
            } else {
                switch == 0
            }
        }),
{
    let order = lemma_built(records, t, v);
    let vi = v as int;
    let o = machine::accesses(records@);
    let bits = trace::switch_bits(t, vi, l);
    let switch = t.int@[v + 14 + l]@[i];
    benes::upper_wires_have_a_clear_stride_bit(i, benes::stride_bit_of(vi, l) as nat);
    benes::lemma_pairs(bits, vi, l, i);
    assert(switch == t.cell(layout::switch_col(vi, l), i));
    assert(t.cell(layout::switch_col(vi, l), i) == 0 || benes::is_upper(i, s));
    if benes::is_upper(i, s) {
        unique::lemma_framed_layers(t, vi, o, order, l);
        trace::lemma_layer_out(t, vi, l);
        let before = trace::state(t, vi, l);
        let after = trace::state(t, vi, l + 1);
        assert(bits[i] == (switch == 1));
        assert(after[i] == before[benes::source(bits, s, i)]);
        assert(after[i + s] == before[benes::source(bits, s, i + s)]);
        assert forall|p: int| 0 <= p < 21 implies #[trigger] t.binary_poly@[21 * (l + 1) + p]@[i]
            == t.binary_poly@[21 * l + p]@[if switch == 1 {
            i + s
        } else {
            i
        }] by {
            assert(after[i][p] == t.limb(21 * (l + 1) + p, i));
            assert(before[benes::source(bits, s, i)][p] == t.limb(
                21 * l + p,
                benes::source(bits, s, i),
            ));
        }
        assert forall|p: int|
            0 <= p < 21 implies #[trigger] t.binary_poly@[21 * (l + 1) + p]@[i + s]
            == t.binary_poly@[21 * l + p]@[if switch == 1 {
            i
        } else {
            i + s
        }] by {
            assert(after[i + s][p] == t.limb(21 * (l + 1) + p, i + s));
            assert(before[benes::source(bits, s, i + s)][p] == t.limb(
                21 * l + p,
                benes::source(bits, s, i + s),
            ));
        }
    }
}

/// The switches are those of the network that is routed for the permutation
/// which takes the rows of the first state to the rows of the last one.
pub proof fn switches_are_those_of_the_routed_network(
    records: &[TraceRecord],
    t: UairTrace,
    v: usize,
    permutation: &[usize],
    layers: Vec<Vec<bool>>,
)
    requires
        call_ensures(witness::build_uair_trace, (records,), Ok((t, v))) || call_ensures(
            witness::build_uair_trace_any_start,
            (records,),
            Ok((t, v)),
        ),
        permutation@.len() == pow2(v as nat),
        forall|j: int|
            0 <= j < permutation@.len() ==> (#[trigger] permutation@[j]) < permutation@.len(),
        forall|j: int, p: int|
            0 <= j < permutation@.len() && 0 <= p < 21 ==> #[trigger] t.binary_poly@[21 * (2 * v - 1)
                + p]@[j] == t.binary_poly@[p]@[permutation@[j] as int],
        call_ensures(benes::route, (permutation,), layers),
    ensures
        layers@.len() == 2 * v - 1,
        forall|l: int, i: int|
            0 <= l < 2 * v - 1 && 0 <= i < pow2(v as nat) ==> #[trigger] t.int@[v + 14 + l]@[i]
                == if layers@[l]@[i] {
                1i64
            } else {
                0
            },
{
    let order = lemma_built(records, t, v);
    let vi = v as int;
    let n = pow2(v as nat) as int;
    let o = machine::accesses(records@);
    let link = witness::linking(order, n);
    trace::lemma_rows(vi);
    assert forall|j: int| 0 <= j < n implies #[trigger] permutation@[j] == link[j] by {
        let d = benes::destination(order, j);
        if j < o.len() {
            let k = perm::lemma_permutation_reaches(order, j);
            assert(0 <= d < order.len() && order[d] == j);
            assert(link[j] == d);
        } else {
            assert(link[j] == j);
        }
        let here = link[j] as int;
        assert(witness::padded_sorted(o, order, n)[here] == witness::padded_original(o, order, n)[j]);
        lemma_same_row(records, t, v, order, here, j);
        let there = permutation@[j] as int;
        if here < there {
            lemma_rows_differ(records, t, v, here, there);
        } else if there < here {
            lemma_rows_differ(records, t, v, there, here);
        }
        assert forall|p: int| 0 <= p < 21 implies #[trigger] t.binary_poly@[p]@[here]
            == t.binary_poly@[p]@[there] by {
            assert(t.binary_poly@[21 * (2 * v - 1) + p]@[j] == t.binary_poly@[p]@[there]);
        }
    }
    assert(permutation@ =~= link);
    assert(benes::is_routed(layers@, vi, permutation@));
    assert(benes::realizes(layers@, vi, permutation@));
    assert forall|l: int, i: int|
        0 <= l < 2 * v - 1 && 0 <= i < n implies #[trigger] t.int@[v + 14 + l]@[i]
        == if layers@[l]@[i] {
        1i64
    } else {
        0
    } by {
        assert(t.cell(layout::switch_col(vi, l), i) == if benes::routed(link, vi, l, i) {
            1i64
        } else {
            0
        });
        assert(layers@[l]@[i] == benes::routed(permutation@, vi, l, i));
    }
}

/// No two rows of the first network state are the same.
proof fn lemma_rows_differ(records: &[TraceRecord], t: UairTrace, v: usize, i: int, j: int)
    requires
        call_ensures(witness::build_uair_trace, (records,), Ok((t, v))) || call_ensures(
            witness::build_uair_trace_any_start,
            (records,),
            Ok((t, v)),
        ),
        0 <= i < j < pow2(v as nat),
    ensures
        exists|p: int| 0 <= p < 21 && #[trigger] t.binary_poly@[p]@[i] != t.binary_poly@[p]@[j],
{
    let order = lemma_built(records, t, v);
    let o = machine::accesses(records@);
    let n = pow2(v as nat) as int;
    let s = witness::padded_sorted(o, order, n);
    witness::lemma_padded_orders(o, order, n);
    assert(crate::consistency::precedes(s[i], s[j]));
    if forall|p: int| 0 <= p < 21 ==> #[trigger] t.binary_poly@[p]@[i] == t.binary_poly@[p]@[j] {
        assert(limbs::encodes(trace::payload(t, 0, i), s[i]));
        assert(limbs::encodes(trace::payload(t, 0, j), s[j]));
        assert forall|p: int| 0 <= p < 21 implies trace::payload(t, 0, i)[p] == trace::payload(
            t,
            0,
            j,
        )[p] by {
            assert(t.binary_poly@[p]@[i] == t.binary_poly@[p]@[j]);
        }
        assert(trace::payload(t, 0, i) =~= trace::payload(t, 0, j));
    }
}

} // verus!
