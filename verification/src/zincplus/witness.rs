//! Building the trace of the constraint system from an execution trace.

use crate::consistency;
use crate::digits;
use crate::machine;
use crate::machine::{Access, MemoryInstruction, TraceRecord};
use crate::order;
use crate::perm;
use crate::zincplus::benes;
use crate::zincplus::error::ZincMemoryError;
use crate::zincplus::expr::Row;
use crate::zincplus::layout;
use crate::zincplus::layout::{
    NetLayout, MAX_NUM_VARS, MIN_NUM_VARS, NUM_ADDR_LIMBS, NUM_LEX_LIMBS, PAYLOAD_CELLS, PL_INSTR,
    PL_TIME,
};
use crate::zincplus::limbs;
use crate::zincplus::limbs::RowLimbs;
use crate::zincplus::trace;
use crate::zincplus::trace::UairTrace;
use crate::zincplus::uair;
use vstd::arithmetic::power2::*;
use vstd::prelude::*;

verus! {

// ---------------------------------------------------------------------------
// What is accepted.
// ---------------------------------------------------------------------------

/// The first position, from `i` on, whose successor is not later; the last
/// position where there is none.
pub open spec fn first_unordered(o: Seq<Access>, i: int) -> int
    decreases o.len() - i,
{
    if i + 1 >= o.len() {
        i
    } else if o[i + 1].time <= o[i].time {
        i
    } else {
        first_unordered(o, i + 1)
    }
}

/// The smallest supported exponent, from `v` on, of a row count above `len`;
/// the largest supported one where there is none.
pub open spec fn exponent_from(len: int, v: int) -> int
    decreases MAX_NUM_VARS - v,
{
    if v >= MAX_NUM_VARS || len < pow2(v as nat) {
        v
    } else {
        exponent_from(len, v + 1)
    }
}

/// The exponent of the row count for a trace of `len` records: at least one row
/// is left for padding.
pub open spec fn exponent_for(len: int) -> int {
    exponent_from(len, MIN_NUM_VARS as int)
}

/// Why no witness is built for an execution trace.
pub open spec fn rejection(o: Seq<Access>) -> Option<ZincMemoryError> {
    let i = first_unordered(o, 0);
    if o.len() == 0 {
        Some(ZincMemoryError::EmptyTrace)
    } else if i + 1 < o.len() {
        if o[i + 1].time == o[i].time {
            Some(ZincMemoryError::DuplicatedAccess { time_log: o[i].time as u64 })
        } else {
            Some(ZincMemoryError::TimeNotIncreasing { time_log: o[i + 1].time as u64 })
        }
    } else if o.len() >= pow2(MAX_NUM_VARS as nat) {
        Some(ZincMemoryError::TraceTooLong)
    } else if o.last().time + pow2(exponent_for(o.len() as int) as nat) - o.len() > u64::MAX {
        Some(ZincMemoryError::TimeLogOverflow)
    } else {
        None
    }
}

/// Why no witness is built for an execution trace that has to start at time
/// zero.
pub open spec fn input_rejection(o: Seq<Access>) -> Option<ZincMemoryError> {
    if o.len() > 0 && o[0].time != 0 {
        Some(ZincMemoryError::FirstTimeNonZero { time_log: o[0].time as u64 })
    } else {
        rejection(o)
    }
}

pub proof fn lemma_first_unordered(o: Seq<Access>, i: int)
    requires
        0 <= i < o.len(),
    ensures
        i <= first_unordered(o, i) < o.len(),
        forall|j: int| i <= j < first_unordered(o, i) ==> (#[trigger] o[j]).time < o[j + 1].time,
        first_unordered(o, i) + 1 < o.len() ==> o[first_unordered(o, i) + 1].time <= o[first_unordered(
            o,
            i,
        )].time,
    decreases o.len() - i,
{
    if i + 1 < o.len() && o[i + 1].time > o[i].time {
        lemma_first_unordered(o, i + 1);
    }
}

proof fn lemma_exponent(len: int, v: int)
    requires
        layout::supported(v),
        len < pow2(MAX_NUM_VARS as nat),
    ensures
        v <= exponent_from(len, v) <= MAX_NUM_VARS,
        len < pow2(exponent_from(len, v) as nat),
        forall|w: int| v <= w < exponent_from(len, v) ==> len >= #[trigger] pow2(w as nat),
    decreases MAX_NUM_VARS - v,
{
    if v < MAX_NUM_VARS && len >= pow2(v as nat) {
        lemma_exponent(len, v + 1);
    }
}

/// The row count is the smallest supported one that leaves a row for padding.
pub proof fn row_counts_are_minimal(len: int)
    requires
        len < pow2(MAX_NUM_VARS as nat),
    ensures
        layout::supported(exponent_for(len)),
        len < pow2(exponent_for(len) as nat),
        forall|v: int|
            MIN_NUM_VARS <= v < exponent_for(len) ==> len >= #[trigger] pow2(v as nat),
{
    lemma_exponent(len, MIN_NUM_VARS as int);
}

/// What an accepted trace is like.
pub proof fn lemma_accepted(o: Seq<Access>)
    requires
        rejection(o) is None,
    ensures
        o.len() > 0,
        consistency::time_increases(o),
        layout::supported(exponent_for(o.len() as int)),
        o.len() < pow2(exponent_for(o.len() as int) as nat),
{
    lemma_first_unordered(o, 0);
    trace::lemma_adjacent_times(o);
    lemma_exponent(o.len() as int, MIN_NUM_VARS as int);
}

// ---------------------------------------------------------------------------
// What is built.
// ---------------------------------------------------------------------------

/// The padding of a trace that ends at time `last` to `n` more rows: reads of
/// the cell and value of `base`, at the times that follow.
pub open spec fn padding(last: nat, base: Access, n: int) -> Seq<Access> {
    Seq::new(
        n as nat,
        |j: int|
            Access {
                time: (last + 1 + j) as nat,
                stack_depth: base.stack_depth,
                write: false,
                address: base.address,
                value: base.value,
            },
    )
}

/// The trace listed in order.
pub open spec fn sorted_trace(o: Seq<Access>, order: Seq<usize>) -> Seq<Access> {
    perm::permuted(o, order)
}

/// The original trace, padded to `n` rows. The last access in order is replayed.
pub open spec fn padded_original(o: Seq<Access>, order: Seq<usize>, n: int) -> Seq<Access> {
    o + padding(o.last().time, sorted_trace(o, order).last(), n - o.len())
}

/// The sorted trace, padded to `n` rows by the same rows as the original one.
pub open spec fn padded_sorted(o: Seq<Access>, order: Seq<usize>, n: int) -> Seq<Access> {
    sorted_trace(o, order) + padding(o.last().time, sorted_trace(o, order).last(), n - o.len())
}

/// The cells of a row that do not depend on whether memory is consistent: the
/// keys of the sorted trace step up, time does, and the network's pairs are
/// swapped or kept as the switches say.
pub open spec fn framed(v: int, row: Row) -> bool {
    &&& exists|k: int| 0 <= k < NUM_LEX_LIMBS && #[trigger] uair::key_step(v, row, k)
    &&& uair::time_step(v, row)
    &&& forall|l: int| 0 <= l < 2 * v - 1 ==> #[trigger] uair::layer_ok(v, row, l)
}

/// The selectors, the helper and the slacks of a last row, which no constraint
/// reads, are zero.
pub open spec fn closed_off(v: int, row: Row) -> bool {
    &&& forall|c: int|
        layout::selector_col(v, 0) <= c < layout::switch_col(v, 0) ==> #[trigger] row.int[c] == 0
    &&& row.up[layout::slack_sorted(v)] == 0
    &&& row.up[layout::slack_original(v)] == 0
}

/// A switch bit that is set stands on an upper wire, and the others are zero.
pub open spec fn switches_are_bits(t: UairTrace, v: int) -> bool {
    forall|l: int, i: int|
        0 <= l < 2 * v - 1 && 0 <= i < pow2(v as nat) ==> {
            let bit = #[trigger] t.cell(layout::switch_col(v, l), i);
            bit == 0 || (bit == 1 && benes::is_upper(i, benes::stride_of(v, l)))
        }
}

/// The permutation that takes the padded sorted trace to the padded original
/// one: a record of the trace goes back to its own position, a padding row stays.
pub open spec fn linking(order: Seq<usize>, n: int) -> Seq<usize> {
    Seq::new(
        n as nat,
        |j: int|
            if j < order.len() {
                benes::destination(order, j) as usize
            } else {
                j as usize
            },
    )
}

/// The switch bits are those of a network that is routed to link the traces.
pub open spec fn switches_are_routed(t: UairTrace, v: int, order: Seq<usize>) -> bool {
    forall|l: int, i: int|
        0 <= l < 2 * v - 1 && 0 <= i < pow2(v as nat) ==> #[trigger] t.cell(
            layout::switch_col(v, l),
            i,
        ) == if benes::routed(linking(order, pow2(v as nat) as int), v, l, i) {
            1i64
        } else {
            0
        }
}

/// `t` is a trace on `2^v` rows for the execution trace `o`, whose order is
/// `order`: the first network state holds the padded sorted trace, the last
/// one the padded original trace, and the other cells link them row by row.
pub open spec fn is_witness(t: UairTrace, v: int, o: Seq<Access>, order: Seq<usize>) -> bool {
    let n = pow2(v as nat) as int;
    &&& trace::shaped(t, v)
    &&& trace::public_as_fixed(t, v)
    &&& forall|i: int|
        0 <= i < n ==> limbs::encodes(
            #[trigger] trace::payload(t, 0, i),
            padded_sorted(o, order, n)[i],
        )
    &&& forall|i: int|
        0 <= i < n ==> limbs::encodes(
            #[trigger] trace::payload(t, 2 * v - 1, i),
            padded_original(o, order, n)[i],
        )
    &&& forall|i: int| 0 <= i < n - 1 ==> framed(v, #[trigger] trace::row_at(t, v, i))
    &&& closed_off(v, trace::row_at(t, v, n - 1))
    &&& switches_are_bits(t, v)
    &&& switches_are_routed(t, v, order)
}

/// `order` lists the positions of `o` by address, then by time.
pub open spec fn sorts(order: Seq<usize>, o: Seq<Access>) -> bool {
    &&& order.len() == o.len()
    &&& perm::is_permutation(order)
    &&& order::in_order(o, order)
}

// ---------------------------------------------------------------------------
// What satisfying the system says of the execution trace.
// ---------------------------------------------------------------------------

/// Padding rows read back the value of the cell that comes last in order, so
/// they agree with what they follow.
proof fn lemma_padding_consistent(o: Seq<Access>, order: Seq<usize>, n: int)
    requires
        o.len() > 0,
        n >= o.len(),
        sorts(order, o),
        consistency::time_increases(o),
        consistency::sorted(padded_sorted(o, order, n)),
    ensures
        consistency::sorted_consistent(padded_sorted(o, order, n)) <==> consistency::memory_consistent(o),
{
    let s = sorted_trace(o, order);
    let sp = padded_sorted(o, order, n);
    order::lemma_sorted_rearrangement(o, order);
    consistency::sorting_decides_consistency(s, o);
    if consistency::sorted_consistent(sp) {
        assert(s[0] == sp[0]);
        assert forall|i: int| 0 <= i < s.len() - 1 implies consistency::step_consistent(
            #[trigger] s[i],
            s[i + 1],
        ) by {
            assert(consistency::step_consistent(sp[i], sp[i + 1]));
            assert(sp[i] == s[i] && sp[i + 1] == s[i + 1]);
        }
    }
    if consistency::sorted_consistent(s) {
        assert(s[0] == sp[0]);
        assert forall|i: int| 0 <= i < sp.len() - 1 implies consistency::step_consistent(
            #[trigger] sp[i],
            sp[i + 1],
        ) by {
            if i + 1 < s.len() {
                assert(consistency::step_consistent(s[i], s[i + 1]));
            }
        }
    }
}

proof fn lemma_witness_traces(t: UairTrace, v: int, o: Seq<Access>, order: Seq<usize>)
    requires
        layout::supported(v),
        o.len() < pow2(v as nat),
        sorts(order, o),
        is_witness(t, v, o, order),
    ensures
        trace::trace_of(t, v, 0) == padded_sorted(o, order, pow2(v as nat) as int),
        trace::trace_of(t, v, 2 * v - 1) == padded_original(o, order, pow2(v as nat) as int),
        consistency::sorted(padded_sorted(o, order, pow2(v as nat) as int)),
{
    let n = pow2(v as nat) as int;
    let s = trace::trace_of(t, v, 0);
    assert forall|i: int| 0 <= i < n implies trace::trace_of(t, v, 0)[i] == padded_sorted(
        o,
        order,
        n,
    )[i] by {
        assert(limbs::encodes(trace::payload(t, 0, i), padded_sorted(o, order, n)[i]));
    }
    assert(s =~= padded_sorted(o, order, n));
    assert forall|i: int| 0 <= i < n implies trace::trace_of(t, v, 2 * v - 1)[i] == padded_original(
        o,
        order,
        n,
    )[i] by {
        assert(limbs::encodes(trace::payload(t, 2 * v - 1, i), padded_original(o, order, n)[i]));
    }
    assert(trace::trace_of(t, v, 2 * v - 1) =~= padded_original(o, order, n));
    assert forall|i: int| 0 <= i < n - 1 implies consistency::precedes(#[trigger] s[i], s[i + 1]) by {
        let row = trace::row_at(t, v, i);
        assert(framed(v, row));
        let k = choose|k: int| 0 <= k < NUM_LEX_LIMBS && #[trigger] uair::key_step(v, row, k);
        trace::lemma_key_step(t, v, i, k);
    }
    trace::lemma_adjacent_order(s);
}

/// The witness of an execution trace satisfies the system exactly when the
/// trace starts at time zero and every read returns the last value written.
pub proof fn witnesses_satisfy_exactly_the_consistent_traces(
    t: UairTrace,
    v: int,
    o: Seq<Access>,
    order: Seq<usize>,
)
    requires
        rejection(o) is None,
        v == exponent_for(o.len() as int),
        sorts(order, o),
        is_witness(t, v, o, order),
    ensures
        trace::satisfied(t, v) <==> consistency::statement(o),
{
    let n = pow2(v as nat) as int;
    let sp = padded_sorted(o, order, n);
    let op = padded_original(o, order, n);
    lemma_accepted(o);
    trace::lemma_rows(v);
    lemma_witness_traces(t, v, o, order);
    lemma_padding_consistent(o, order, n);
    assert(op[0] == o[0]);
    if trace::satisfied(t, v) {
        trace::satisfying_traces_are_consistent(t, v);
    }
    if consistency::statement(o) {
        assert forall|i: int| 0 <= i < n - 1 implies uair::row_ok(
            v,
            #[trigger] trace::row_at(t, v, i),
        ) by {
            let row = trace::row_at(t, v, i);
            assert(framed(v, row));
            let k = choose|k: int| 0 <= k < NUM_LEX_LIMBS && #[trigger] uair::key_step(v, row, k);
            assert(consistency::step_consistent(sp[i], sp[i + 1]));
            trace::lemma_value_step(t, v, i, k);
            assert(t.cell(0, i) == trace::public_cell(0, i));
            trace::lemma_cells(t, v, i, 0, PL_INSTR as int);
            assert(layout::read_below(v, 0, PL_INSTR as int, 1));
            assert(limbs::encodes(trace::payload(t, 0, i), sp[i]));
            assert(limbs::encodes(trace::payload(t, 0, i + 1), sp[i + 1]));
            assert(uair::below(v, row, 0, PL_INSTR as int, 1) == trace::payload(
                t,
                0,
                i + 1,
            )[PL_INSTR as int]);
            trace::lemma_cells(t, v, i, 2 * v - 1, PL_TIME as int);
            trace::lemma_cells(t, v, i, 2 * v - 1, PL_TIME + 1);
            assert(limbs::encodes(trace::payload(t, 2 * v - 1, i), op[i]));
            trace::lemma_zero_time(trace::payload(t, 2 * v - 1, i));
        }
    }
}

/// The padded traces hold the same accesses, each the same number of times.
pub proof fn padding_keeps_the_traces_rearranged(o: Seq<Access>, order: Seq<usize>, n: int)
    requires
        o.len() > 0,
        sorts(order, o),
    ensures
        consistency::rearranged(padded_sorted(o, order, n), padded_original(o, order, n)),
{
    let s = sorted_trace(o, order);
    let p = padding(o.last().time, s.last(), n - o.len());
    order::lemma_sorted_rearrangement(o, order);
    vstd::seq_lib::lemma_multiset_commutative(s, p);
    vstd::seq_lib::lemma_multiset_commutative(o, p);
}

/// A trace that is refused for any other reason than its length or its last
/// time is no trace in execution order from time zero on.
pub proof fn refused_traces_are_out_of_order(o: Seq<Access>)
    requires
        input_rejection(o) matches Some(e) && !(e is TraceTooLong) && !(e is TimeLogOverflow),
    ensures
        !consistency::time_ordered(o),
{
    if o.len() > 0 && o[0].time == 0 {
        lemma_first_unordered(o, 0);
        let i = first_unordered(o, 0);
        assert(o[i].time >= o[i + 1].time);
    }
}

// ---------------------------------------------------------------------------
// Building.
// ---------------------------------------------------------------------------

/// Check that times increase along a trace.
fn check_times(records: &[TraceRecord]) -> (r: Result<(), ZincMemoryError>)
    requires
        records@.len() > 0,
    ensures
        ({
            let o = machine::accesses(records@);
            let i = first_unordered(o, 0);
            if i + 1 < o.len() {
                r == Err::<(), ZincMemoryError>(rejection(o)->0)
            } else {
                r is Ok
            }
        }),
{
    let ghost o = machine::accesses(records@);
    let n = records.len();
    let mut i: usize = 0;
    while i + 1 < n
        invariant
            i < n,
            n == records@.len(),
            o == machine::accesses(records@),
            first_unordered(o, 0) == first_unordered(o, i as int),
        decreases records@.len() - i,
    {
        let a: u64 = records[i].time_log();
        let b: u64 = records[i + 1].time_log();
        if b == a {
            return Err(ZincMemoryError::DuplicatedAccess { time_log: a });
        }
        if b < a {
            return Err(ZincMemoryError::TimeNotIncreasing { time_log: b });
        }
        i = i + 1;
    }
    Ok(())
}

/// The exponent of the row count for a trace of `len` records.
fn num_vars_for(len: usize) -> (v: usize)
    requires
        len < pow2(MAX_NUM_VARS as nat),
    ensures
        v == exponent_for(len as int),
        layout::supported(v as int),
        len < pow2(v as nat),
{
    let mut v: usize = MIN_NUM_VARS;
    proof {
        lemma_exponent(len as int, MIN_NUM_VARS as int);
    }
    while v < MAX_NUM_VARS && len >= benes::power_of_two(v)
        invariant
            layout::supported(v as int),
            exponent_for(len as int) == exponent_from(len as int, v as int),
        decreases MAX_NUM_VARS - v,
    {
        v = v + 1;
    }
    v
}

/// `count` padding records, or nothing where their times do not fit 64 bits.
fn pad(records: &[TraceRecord], base: TraceRecord, count: usize) -> (out: Option<Vec<TraceRecord>>)
    requires
        records@.len() > 0,
    ensures
        match out {
            Some(p) => {
                &&& machine::accesses(records@).last().time + count <= u64::MAX
                &&& machine::accesses(p@) == padding(
                    machine::accesses(records@).last().time,
                    base@,
                    count as int,
                )
            },
            None => machine::accesses(records@).last().time + count > u64::MAX,
        },
{
    let mut time: u64 = records[records.len() - 1].time_log();
    let ghost last = machine::accesses(records@).last().time;
    let mut out: Vec<TraceRecord> = Vec::new();
    while out.len() < count
        invariant
            out@.len() <= count,
            last == machine::accesses(records@).last().time,
            time == last + out@.len(),
            forall|j: int|
                0 <= j < out@.len() ==> (#[trigger] out@[j])@ == padding(
                    last,
                    base@,
                    count as int,
                )[j],
        decreases count - out@.len(),
    {
        match time.checked_add(1) {
            Some(next) => {
                time = next;
            },
            None => {
                return None;
            },
        }
        out.push(
            TraceRecord::new(
                time,
                base.stack_depth(),
                MemoryInstruction::Read,
                base.address(),
                base.value(),
            ),
        );
    }
    assert(machine::accesses(out@) =~= padding(last, base@, count as int));
    Some(out)
}

/// One trace after another.
fn chained(a: &[TraceRecord], b: &Vec<TraceRecord>) -> (out: Vec<TraceRecord>)
    ensures
        out@ == a@ + b@,
{
    let mut out: Vec<TraceRecord> = Vec::new();
    let mut i: usize = 0;
    while i < a.len()
        invariant
            i <= a@.len(),
            out@ == a@.take(i as int),
        decreases a@.len() - i,
    {
        out.push(a[i]);
        assert(out@ =~= a@.take(i + 1));
        i = i + 1;
    }
    assert(a@.take(i as int) =~= a@);
    let mut j: usize = 0;
    while j < b.len()
        invariant
            j <= b@.len(),
            out@ == a@ + b@.take(j as int),
        decreases b@.len() - j,
    {
        out.push(b[j]);
        assert(out@ =~= a@ + b@.take(j + 1));
        j = j + 1;
    }
    assert(out@ =~= a@ + b@);
    out
}

/// The records in limbs.
fn limbs_of(records: &Vec<TraceRecord>) -> (rows: Vec<RowLimbs>)
    ensures
        rows@.len() == records@.len(),
        forall|i: int|
            0 <= i < rows@.len() ==> limbs::encodes((#[trigger] rows@[i])@, records@[i]@),
{
    let mut rows: Vec<RowLimbs> = Vec::new();
    let mut i: usize = 0;
    while i < records.len()
        invariant
            i <= records@.len(),
            rows@.len() == i,
            forall|k: int|
                0 <= k < i ==> limbs::encodes((#[trigger] rows@[k])@, records@[k]@),
        decreases records@.len() - i,
    {
        rows.push(RowLimbs::from_record(&records[i]));
        i = i + 1;
    }
    rows
}

/// Limb `k` of address and time is the first in which `a` and `b` differ, and
/// `b` is greater there.
spec fn first_difference(a: Seq<u32>, b: Seq<u32>, k: int) -> bool {
    &&& 0 <= k < NUM_LEX_LIMBS
    &&& forall|j: int| 0 <= j < k ==> #[trigger] a[j] == b[j]
    &&& a[k] < b[k]
}

/// The first limb of address and time in which two records differ.
fn first_difference_of(a: &RowLimbs, b: &RowLimbs) -> (k: usize)
    requires
        consistency::precedes(trace::access_of(a@), trace::access_of(b@)),
    ensures
        first_difference(a@, b@, k as int),
{
    proof {
        a.lemma_len();
        b.lemma_len();
    }
    let mut k: usize = 0;
    while k < NUM_LEX_LIMBS && a.lex_limb(k) == b.lex_limb(k)
        invariant
            k <= NUM_LEX_LIMBS,
            forall|j: int| 0 <= j < k ==> #[trigger] a@[j] == b@[j],
        decreases NUM_LEX_LIMBS - k,
    {
        k = k + 1;
    }
    proof {
        let x = a@;
        let y = b@;
        if k >= 8 {
            assert(x.subrange(0, 8) =~= y.subrange(0, 8));
        }
        if k >= 10 {
            assert(x.subrange(8, 10) =~= y.subrange(8, 10));
        }
        assert(k < 10);
        if x[k as int] > y[k as int] {
            if k < 8 {
                digits::lemma_limbs_less(y.subrange(0, 8), x.subrange(0, 8), k as int);
            } else {
                digits::lemma_limbs_less(y.subrange(8, 10), x.subrange(8, 10), k - 8);
            }
        }
    }
    k
}

/// The columns that show how address and time increase along a sorted trace.
struct KeyColumns {
    selectors: Vec<Vec<i64>>,
    slack: Vec<u32>,
    helper: Vec<i64>,
}

/// The cells of row `i` when limb `k` is the first to differ from the next row.
spec fn key_cells(cols: KeyColumns, rows: Seq<RowLimbs>, i: int, k: int) -> bool {
    &&& first_difference(rows[i]@, rows[i + 1]@, k)
    &&& forall|j: int|
        0 <= j < NUM_LEX_LIMBS ==> (#[trigger] cols.selectors@[j])@[i] == if j == k {
            1i64
        } else {
            0
        }
    &&& cols.slack@[i] == rows[i + 1]@[k] - rows[i]@[k] - 1
    &&& cols.helper@[i] == if k >= NUM_ADDR_LIMBS && rows[i + 1]@[20] != 1 {
        -1i64
    } else {
        0
    }
}

spec fn key_row(cols: KeyColumns, rows: Seq<RowLimbs>, i: int) -> bool {
    exists|k: int| #[trigger] key_cells(cols, rows, i, k)
}

spec fn blank_cells(cols: KeyColumns, i: int) -> bool {
    &&& forall|j: int| 0 <= j < NUM_LEX_LIMBS ==> (#[trigger] cols.selectors@[j])@[i] == 0
    &&& cols.slack@[i] == 0
    &&& cols.helper@[i] == 0
}

spec fn key_shaped(cols: KeyColumns, n: int) -> bool {
    &&& cols.selectors@.len() == NUM_LEX_LIMBS
    &&& forall|j: int| 0 <= j < NUM_LEX_LIMBS ==> (#[trigger] cols.selectors@[j])@.len() == n
    &&& cols.slack@.len() == n
    &&& cols.helper@.len() == n
}

/// The columns fit the sorted rows; the last row is left blank.
spec fn keys_fit(cols: KeyColumns, rows: Seq<RowLimbs>) -> bool {
    &&& key_shaped(cols, rows.len() as int)
    &&& forall|i: int| 0 <= i < rows.len() - 1 ==> #[trigger] key_row(cols, rows, i)
    &&& blank_cells(cols, rows.len() - 1)
}

fn key_columns(rows: &Vec<RowLimbs>) -> (cols: KeyColumns)
    requires
        rows@.len() > 0,
        forall|i: int|
            0 <= i < rows@.len() - 1 ==> consistency::precedes(
                trace::access_of((#[trigger] rows@[i])@),
                trace::access_of(rows@[i + 1]@),
            ),
        forall|i: int| 0 <= i < rows@.len() ==> (#[trigger] rows@[i])@[20] <= 1,
    ensures
        keys_fit(cols, rows@),
{
    let n = rows.len();
    let mut selectors: Vec<Vec<i64>> = Vec::new();
    while selectors.len() < NUM_LEX_LIMBS
        invariant
            selectors@.len() <= NUM_LEX_LIMBS,
            forall|j: int| 0 <= j < selectors@.len() ==> (#[trigger] selectors@[j])@.len() == n,
            forall|j: int, i: int|
                0 <= j < selectors@.len() && 0 <= i < n ==> (#[trigger] selectors@[j]@[i]) == 0,
        decreases NUM_LEX_LIMBS - selectors@.len(),
    {
        let column: Vec<i64> = vec![0i64; n];
        selectors.push(column);
    }
    let slack: Vec<u32> = vec![0u32; n];
    let helper: Vec<i64> = vec![0i64; n];
    let mut cols = KeyColumns { selectors, slack, helper };
    let mut i: usize = 0;
    while i + 1 < n
        invariant
            n == rows@.len(),
            i < n,
            key_shaped(cols, n as int),
            forall|r: int|
                0 <= r < n - 1 ==> consistency::precedes(
                    trace::access_of((#[trigger] rows@[r])@),
                    trace::access_of(rows@[r + 1]@),
                ),
            forall|r: int| 0 <= r < n ==> (#[trigger] rows@[r])@[20] <= 1,
            forall|r: int| 0 <= r < i ==> #[trigger] key_row(cols, rows@, r),
            forall|r: int| i <= r < n ==> #[trigger] blank_cells(cols, r),
        decreases n - i,
    {
        let ghost before = cols;
        assert(consistency::precedes(
            trace::access_of(rows@[i as int]@),
            trace::access_of(rows@[i + 1]@),
        ));
        let k: usize = first_difference_of(&rows[i], &rows[i + 1]);
        assert(blank_cells(cols, i as int));
        let step: u32 = rows[i + 1].lex_limb(k) - rows[i].lex_limb(k) - 1;
        cols.selectors[k].set(i, 1);
        cols.slack.set(i, step);
        if k >= NUM_ADDR_LIMBS {
            let instr: i64 = rows[i + 1].payload(PL_INSTR) as i64;
            assert(rows@[i + 1]@[20] <= 1);
            cols.helper.set(i, instr - 1);
        }
        proof {
            assert(key_cells(cols, rows@, i as int, k as int));
            assert forall|r: int| 0 <= r < i + 1 implies #[trigger] key_row(cols, rows@, r) by {
                if r < i {
                    assert(key_row(before, rows@, r));
                    let q = choose|q: int| #[trigger] key_cells(before, rows@, r, q);
                    assert(key_cells(cols, rows@, r, q));
                }
            }
            assert forall|r: int| i + 1 <= r < n implies #[trigger] blank_cells(cols, r) by {
                assert(blank_cells(before, r));
            }
        }
        i = i + 1;
    }
    assert(blank_cells(cols, n - 1));
    cols
}

/// The columns that show how time increases along the original trace.
struct TimeColumns {
    hi: Vec<i64>,
    lo: Vec<i64>,
    slack: Vec<u32>,
}

spec fn time_cells(cols: TimeColumns, rows: Seq<RowLimbs>, i: int) -> bool {
    let a = rows[i]@;
    let b = rows[i + 1]@;
    if a[8] != b[8] {
        &&& cols.hi@[i] == 1
        &&& cols.lo@[i] == 0
        &&& cols.slack@[i] == b[8] - a[8] - 1
    } else {
        &&& cols.hi@[i] == 0
        &&& cols.lo@[i] == 1
        &&& cols.slack@[i] == b[9] - a[9] - 1
    }
}

/// The columns fit the rows of the original trace; the last row is left blank.
spec fn times_fit(cols: TimeColumns, rows: Seq<RowLimbs>) -> bool {
    &&& cols.hi@.len() == rows.len()
    &&& cols.lo@.len() == rows.len()
    &&& cols.slack@.len() == rows.len()
    &&& forall|i: int| 0 <= i < rows.len() - 1 ==> #[trigger] time_cells(cols, rows, i)
    &&& cols.hi@[rows.len() - 1] == 0
    &&& cols.lo@[rows.len() - 1] == 0
    &&& cols.slack@[rows.len() - 1] == 0
}

proof fn lemma_later(a: Seq<u32>, b: Seq<u32>)
    requires
        a.len() == PAYLOAD_CELLS,
        b.len() == PAYLOAD_CELLS,
        trace::access_of(a).time < trace::access_of(b).time,
    ensures
        a[8] != b[8] ==> a[8] < b[8],
        a[8] == b[8] ==> a[9] < b[9],
{
    let c = a.subrange(8, 10);
    let d = b.subrange(8, 10);
    assert(c =~= seq![a[8], a[9]]);
    assert(d =~= seq![b[8], b[9]]);
    digits::lemma_two_limbs(a[8], a[9]);
    digits::lemma_two_limbs(b[8], b[9]);
}

fn time_columns(rows: &Vec<RowLimbs>) -> (cols: TimeColumns)
    requires
        rows@.len() > 0,
        forall|i: int|
            0 <= i < rows@.len() - 1 ==> trace::access_of((#[trigger] rows@[i])@).time
                < trace::access_of(rows@[i + 1]@).time,
    ensures
        times_fit(cols, rows@),
{
    let n = rows.len();
    let hi: Vec<i64> = vec![0i64; n];
    let lo: Vec<i64> = vec![0i64; n];
    let slack: Vec<u32> = vec![0u32; n];
    let mut cols = TimeColumns { hi, lo, slack };
    let mut i: usize = 0;
    while i + 1 < n
        invariant
            n == rows@.len(),
            i < n,
            cols.hi@.len() == n,
            cols.lo@.len() == n,
            cols.slack@.len() == n,
            forall|r: int|
                0 <= r < n - 1 ==> trace::access_of((#[trigger] rows@[r])@).time < trace::access_of(
                    rows@[r + 1]@,
                ).time,
            forall|r: int| 0 <= r < i ==> #[trigger] time_cells(cols, rows@, r),
            forall|r: int| i <= r < n ==> #[trigger] cols.hi@[r] == 0,
            forall|r: int| i <= r < n ==> #[trigger] cols.lo@[r] == 0,
            forall|r: int| i <= r < n ==> #[trigger] cols.slack@[r] == 0,
        decreases n - i,
    {
        let ghost before = cols;
        proof {
            rows@[i as int].lemma_len();
            rows@[i + 1].lemma_len();
            lemma_later(rows@[i as int]@, rows@[i + 1]@);
        }
        let hi: u32 = rows[i].payload(PL_TIME);
        let next_hi: u32 = rows[i + 1].payload(PL_TIME);
        if hi != next_hi {
            cols.hi.set(i, 1);
            cols.slack.set(i, next_hi - hi - 1);
        } else {
            let lo: u32 = rows[i].payload(PL_TIME + 1);
            let next_lo: u32 = rows[i + 1].payload(PL_TIME + 1);
            cols.lo.set(i, 1);
            cols.slack.set(i, next_lo - lo - 1);
        }
        proof {
            assert(time_cells(cols, rows@, i as int));
            assert forall|r: int| 0 <= r < i + 1 implies #[trigger] time_cells(cols, rows@, r) by {
                if r < i {
                    assert(time_cells(before, rows@, r));
                }
            }
        }
        i = i + 1;
    }
    cols
}

/// The public integer columns of a system on `2^num_vars` rows: the first tells
/// the first row, the others, by bit, the rows whose index has the bit clear.
pub fn public_int_columns(num_vars: usize) -> (columns: Vec<Vec<i64>>)
    requires
        num_vars < usize::BITS,
    ensures
        columns@.len() == 1 + num_vars,
        forall|c: int|
            0 <= c <= num_vars ==> (#[trigger] columns@[c])@.len() == pow2(num_vars as nat),
        forall|c: int, i: int|
            0 <= c <= num_vars && 0 <= i < pow2(num_vars as nat) ==> #[trigger] columns@[c]@[i]
                == trace::public_cell(c, i),
{
    let n: usize = benes::power_of_two(num_vars);
    let mut columns: Vec<Vec<i64>> = Vec::new();
    let mut first: Vec<i64> = vec![0i64; n];
    first.set(0, 1);
    columns.push(first);
    let mut k: usize = 0;
    while k < num_vars
        invariant
            k <= num_vars < usize::BITS,
            n == pow2(num_vars as nat),
            columns@.len() == 1 + k,
            forall|c: int| 0 <= c <= k ==> (#[trigger] columns@[c])@.len() == n,
            forall|c: int, i: int|
                0 <= c <= k && 0 <= i < n ==> #[trigger] columns@[c]@[i] == trace::public_cell(c, i),
        decreases num_vars - k,
    {
        let stride: usize = benes::power_of_two(k);
        let mut column: Vec<i64> = Vec::new();
        let mut i: usize = 0;
        while i < n
            invariant
                i <= n,
                stride == pow2(k as nat),
                stride >= 1,
                column@.len() == i,
                forall|r: int| 0 <= r < i ==> #[trigger] column@[r] == trace::public_cell(k + 1, r),
            decreases n - i,
        {
            proof {
                benes::upper_wires_have_a_clear_stride_bit(i as int, k as nat);
            }
            if (i / stride) % 2 == 0 {
                column.push(1);
            } else {
                column.push(0);
            }
            i = i + 1;
        }
        columns.push(column);
        k = k + 1;
    }
    columns
}

/// One payload cell of all rows.
fn bp_column(rows: &Vec<RowLimbs>, payload: usize) -> (column: Vec<u32>)
    requires
        payload < PAYLOAD_CELLS,
    ensures
        column@.len() == rows@.len(),
        forall|i: int| 0 <= i < rows@.len() ==> #[trigger] column@[i] == rows@[i]@[payload as int],
{
    let mut column: Vec<u32> = Vec::new();
    let mut i: usize = 0;
    while i < rows.len()
        invariant
            i <= rows@.len(),
            payload < PAYLOAD_CELLS,
            column@.len() == i,
            forall|r: int| 0 <= r < i ==> #[trigger] column@[r] == rows@[r]@[payload as int],
        decreases rows@.len() - i,
    {
        column.push(rows[i].payload(payload));
        i = i + 1;
    }
    column
}

/// The columns hold the first `states` network states.
spec fn states_fit(
    columns: Seq<Vec<u32>>,
    rows: Seq<RowLimbs>,
    v: int,
    layers: Seq<Vec<bool>>,
    states: int,
) -> bool {
    &&& columns.len() == 21 * states
    &&& forall|c: int| 0 <= c < columns.len() ==> (#[trigger] columns[c])@.len() == rows.len()
    &&& forall|g: int, p: int, i: int|
        0 <= g < states && 0 <= p < PAYLOAD_CELLS && 0 <= i < rows.len()
            ==> #[trigger] columns[layout::col(g, p)]@[i] == benes::network_out(rows, v, layers, g)[i]@[p]
}

fn push_state(columns: &mut Vec<Vec<u32>>, state: &Vec<RowLimbs>)
    ensures
        final(columns)@.len() == old(columns)@.len() + PAYLOAD_CELLS,
        forall|c: int| 0 <= c < old(columns)@.len() ==> #[trigger] final(columns)@[c] == old(columns)@[c],
        forall|p: int|
            0 <= p < PAYLOAD_CELLS ==> (#[trigger] final(columns)@[old(columns)@.len() + p])@.len()
                == state@.len(),
        forall|p: int, i: int|
            0 <= p < PAYLOAD_CELLS && 0 <= i < state@.len() ==> #[trigger] final(columns)@[old(
                columns,
            )@.len() + p]@[i] == state@[i]@[p],
{
    let ghost before = columns@;
    let mut payload: usize = 0;
    while payload < PAYLOAD_CELLS
        invariant
            payload <= PAYLOAD_CELLS,
            columns@.len() == before.len() + payload,
            forall|c: int| 0 <= c < before.len() ==> #[trigger] columns@[c] == before[c],
            forall|p: int|
                0 <= p < payload ==> (#[trigger] columns@[before.len() + p])@.len() == state@.len(),
            forall|p: int, i: int|
                0 <= p < payload && 0 <= i < state@.len() ==> #[trigger] columns@[before.len()
                    + p]@[i] == state@[i]@[p],
        decreases PAYLOAD_CELLS - payload,
    {
        columns.push(bp_column(state, payload));
        payload = payload + 1;
    }
}

/// The payload columns of all network states, from the rows of the first.
fn network_columns(rows: Vec<RowLimbs>, v: usize, layers: &Vec<Vec<bool>>) -> (columns: Vec<Vec<u32>>)
    requires
        layout::supported(v as int),
        rows@.len() == pow2(v as nat),
        benes::shaped(layers@, v as int),
    ensures
        states_fit(columns@, rows@, v as int, layers@, 2 * v),
{
    let ghost start = rows@;
    let mut state = rows;
    let mut columns: Vec<Vec<u32>> = Vec::new();
    push_state(&mut columns, &state);
    proof {
        assert forall|g: int, p: int, i: int|
            0 <= g < 1 && 0 <= p < PAYLOAD_CELLS && 0 <= i < start.len() implies #[trigger] columns@[layout::col(
            g,
            p,
        )]@[i] == benes::network_out(start, v as int, layers@, g)[i]@[p] by {
            assert(columns@[0 + p]@[i] == state@[i]@[p]);
        }
        assert forall|c: int| 0 <= c < columns@.len() implies (#[trigger] columns@[c])@.len()
            == start.len() by {
            assert(columns@[0 + c]@.len() == state@.len());
        }
    }
    let mut layer: usize = 0;
    while layer < 2 * v - 1
        invariant
            layout::supported(v as int),
            layer <= 2 * v - 1,
            start.len() == pow2(v as nat),
            benes::shaped(layers@, v as int),
            state@ == benes::network_out(start, v as int, layers@, layer as int),
            state@.len() == start.len(),
            states_fit(columns@, start, v as int, layers@, layer + 1),
        decreases 2 * v - 1 - layer,
    {
        let ghost before = columns@;
        assert(layers@[layer as int]@.len() == pow2(v as nat));
        benes::apply_layer(state.as_mut_slice(), v, layer, layers[layer].as_slice());
        push_state(&mut columns, &state);
        proof {
            let done = layer + 1;
            assert forall|g: int, p: int, i: int|
                0 <= g < done + 1 && 0 <= p < PAYLOAD_CELLS && 0 <= i < start.len() implies #[trigger] columns@[layout::col(
                g,
                p,
            )]@[i] == benes::network_out(start, v as int, layers@, g)[i]@[p] by {
                if g < done {
                    assert(columns@[layout::col(g, p)] == before[layout::col(g, p)]);
                } else {
                    assert(columns@[before.len() + p]@[i] == state@[i]@[p]);
                }
            }
            assert forall|c: int| 0 <= c < columns@.len() implies (#[trigger] columns@[c])@.len()
                == start.len() by {
                if c < before.len() {
                    assert(columns@[c] == before[c]);
                } else {
                    assert(columns@[before.len() + (c - before.len())]@.len() == state@.len());
                }
            }
        }
        layer = layer + 1;
    }
    columns
}

/// The switch bits as integer columns.
fn switch_columns(layers: &Vec<Vec<bool>>) -> (columns: Vec<Vec<i64>>)
    ensures
        columns@.len() == layers@.len(),
        forall|l: int|
            0 <= l < layers@.len() ==> (#[trigger] columns@[l])@.len() == layers@[l]@.len(),
        forall|l: int, i: int|
            0 <= l < layers@.len() && 0 <= i < layers@[l]@.len() ==> #[trigger] columns@[l]@[i] == if layers@[l]@[i] {
                1i64
            } else {
                0
            },
{
    let mut columns: Vec<Vec<i64>> = Vec::new();
    let mut l: usize = 0;
    while l < layers.len()
        invariant
            l <= layers@.len(),
            columns@.len() == l,
            forall|k: int| 0 <= k < l ==> (#[trigger] columns@[k])@.len() == layers@[k]@.len(),
            forall|k: int, i: int|
                0 <= k < l && 0 <= i < layers@[k]@.len() ==> #[trigger] columns@[k]@[i] == if layers@[k]@[i] {
                    1i64
                } else {
                    0
                },
        decreases layers@.len() - l,
    {
        let mut column: Vec<i64> = Vec::new();
        let mut i: usize = 0;
        while i < layers[l].len()
            invariant
                l < layers@.len(),
                i <= layers@[l as int]@.len(),
                column@.len() == i,
                forall|r: int|
                    0 <= r < i ==> #[trigger] column@[r] == if layers@[l as int]@[r] {
                        1i64
                    } else {
                        0
                    },
            decreases layers@[l as int]@.len() - i,
        {
            let bit: i64 = if layers[l][i] {
                1
            } else {
                0
            };
            column.push(bit);
            i = i + 1;
        }
        columns.push(column);
        l = l + 1;
    }
    columns
}

/// The permutation that takes the padded sorted trace to the padded original
/// one: row `j` of the original trace is row `out[j]` of the sorted trace.
fn linking_permutation(order: &Vec<usize>, n: usize) -> (out: Vec<usize>)
    requires
        perm::is_permutation(order@),
        order@.len() <= n,
    ensures
        out@.len() == n,
        perm::is_permutation(out@),
        forall|j: int|
            0 <= j < order@.len() ==> (#[trigger] out@[j]) < order@.len() && order@[out@[j] as int]
                == j,
        forall|j: int| order@.len() <= j < n ==> #[trigger] out@[j] == j,
        out@ == linking(order@, n as int),
{
    let mut whole: Vec<usize> = Vec::new();
    let mut i: usize = 0;
    while i < n
        invariant
            i <= n,
            order@.len() <= n,
            whole@.len() == i,
            forall|k: int|
                0 <= k < i ==> #[trigger] whole@[k] == if k < order@.len() {
                    order@[k]
                } else {
                    k as usize
                },
        decreases n - i,
    {
        if i < order.len() {
            whole.push(order[i]);
        } else {
            whole.push(i);
        }
        i = i + 1;
    }
    proof {
        assert forall|k: int| 0 <= k < n implies (#[trigger] whole@[k]) < n by {
            if k < order@.len() {
                assert(order@[k] < order@.len());
            }
        }
        assert forall|a: int, b: int| 0 <= a < n && 0 <= b < n && a != b implies #[trigger] whole@[a]
            != #[trigger] whole@[b] by {
            if a < order@.len() {
                assert(order@[a] < order@.len());
            }
            if b < order@.len() {
                assert(order@[b] < order@.len());
            }
        }
    }
    let out = benes::invert_permutation(whole.as_slice());
    proof {
        assert forall|j: int| 0 <= j < order@.len() implies (#[trigger] out@[j]) < order@.len()
            && order@[out@[j] as int] == j by {
            assert(whole@[out@[j] as int] == j);
            assert(out@[j] < n);
        }
        assert forall|j: int| order@.len() <= j < n implies #[trigger] out@[j] == j by {
            assert(out@[whole@[j] as int] == j);
        }
        assert forall|j: int| 0 <= j < n implies #[trigger] out@[j] == linking(
            order@,
            n as int,
        )[j] by {
            if j < order@.len() {
                let d = benes::destination(order@, j);
                assert(order@[out@[j] as int] == j);
                assert(0 <= d < order@.len() && order@[d] == j);
                assert(d == out@[j]);
            }
        }
        assert(out@ =~= linking(order@, n as int));
    }
    out
}

/// The padded sorted trace is sorted, and time increases along the padded
/// original one.
pub proof fn lemma_padded_orders(o: Seq<Access>, order: Seq<usize>, n: int)
    requires
        o.len() > 0,
        n >= o.len(),
        sorts(order, o),
        consistency::time_increases(o),
    ensures
        consistency::sorted(padded_sorted(o, order, n)),
        consistency::time_increases(padded_original(o, order, n)),
{
    order::lemma_sorted_rearrangement(o, order);
    let s = sorted_trace(o, order);
    let sp = padded_sorted(o, order, n);
    let op = padded_original(o, order, n);
    let m = o.len() as int;
    assert forall|i: int, j: int| 0 <= i < j < sp.len() implies consistency::precedes(
        #[trigger] sp[i],
        #[trigger] sp[j],
    ) by {
        if i < m {
            let a = order[i] as int;
            assert(order[i] < m);
            assert(o[a].time <= o[m - 1].time);
            if i < m - 1 {
                assert(consistency::precedes(s[i], s[m - 1]));
            }
        }
        if j < m {
            assert(consistency::precedes(s[i], s[j]));
        }
    }
    assert forall|i: int, j: int| 0 <= i < j < op.len() implies (#[trigger] op[i]).time < (
    #[trigger] op[j]).time by {
        if i < m {
            assert(o[i].time <= o[m - 1].time);
        }
    }
}

/// The parts that a trace is assembled from.
ghost struct Parts {
    v: int,
    o: Seq<Access>,
    order: Seq<usize>,
    sorted_rows: Seq<RowLimbs>,
    original_rows: Seq<RowLimbs>,
    keys: KeyColumns,
    times: TimeColumns,
    perm: Seq<usize>,
    layers: Seq<Vec<bool>>,
    columns: Seq<Vec<u32>>,
    public: Seq<Vec<i64>>,
    switches: Seq<Vec<i64>>,
}

spec fn parts_fit(c: Parts) -> bool {
    let v = c.v;
    let n = pow2(v as nat) as int;
    &&& layout::supported(v)
    &&& 0 < c.o.len() < n
    &&& sorts(c.order, c.o)
    &&& c.sorted_rows.len() == n
    &&& c.original_rows.len() == n
    &&& forall|i: int|
        0 <= i < n ==> limbs::encodes(
            (#[trigger] c.sorted_rows[i])@,
            padded_sorted(c.o, c.order, n)[i],
        )
    &&& forall|i: int|
        0 <= i < n ==> limbs::encodes(
            (#[trigger] c.original_rows[i])@,
            padded_original(c.o, c.order, n)[i],
        )
    &&& keys_fit(c.keys, c.sorted_rows)
    &&& times_fit(c.times, c.original_rows)
    &&& c.perm.len() == n
    &&& perm::is_permutation(c.perm)
    &&& forall|j: int|
        0 <= j < c.o.len() ==> (#[trigger] c.perm[j]) < c.o.len() && c.order[c.perm[j] as int] == j
    &&& forall|j: int| c.o.len() <= j < n ==> #[trigger] c.perm[j] == j
    &&& c.perm == linking(c.order, n)
    &&& benes::realizes(c.layers, v, c.perm)
    &&& benes::is_routed(c.layers, v, c.perm)
    &&& states_fit(c.columns, c.sorted_rows, v, c.layers, 2 * v)
    &&& c.public.len() == 1 + v
    &&& forall|k: int| 0 <= k <= v ==> (#[trigger] c.public[k])@.len() == n
    &&& forall|k: int, i: int|
        0 <= k <= v && 0 <= i < n ==> #[trigger] c.public[k]@[i] == trace::public_cell(k, i)
    &&& c.switches.len() == 2 * v - 1
    &&& forall|l: int| 0 <= l < 2 * v - 1 ==> (#[trigger] c.switches[l])@.len() == n
    &&& forall|l: int, i: int|
        0 <= l < 2 * v - 1 && 0 <= i < n ==> #[trigger] c.switches[l]@[i] == if c.layers[l]@[i] {
            1i64
        } else {
            0
        }
}

spec fn assembled(t: UairTrace, c: Parts) -> bool {
    &&& t.binary_poly@ == c.columns.push(c.keys.slack).push(c.times.slack)
    &&& t.int@ == c.public + c.keys.selectors@ + seq![c.keys.helper, c.times.hi, c.times.lo]
        + c.switches
}

/// The cells of an assembled trace.
proof fn lemma_assembled_cells(t: UairTrace, c: Parts)
    requires
        parts_fit(c),
        assembled(t, c),
    ensures
        trace::shaped(t, c.v),
        trace::public_as_fixed(t, c.v),
        forall|j: int, i: int|
            0 <= j < NUM_LEX_LIMBS && 0 <= i < pow2(c.v as nat) ==> #[trigger] t.cell(
                layout::selector_col(c.v, j),
                i,
            ) == c.keys.selectors@[j]@[i],
        forall|i: int|
            0 <= i < pow2(c.v as nat) ==> #[trigger] t.cell(layout::helper_col(c.v), i)
                == c.keys.helper@[i],
        forall|i: int|
            0 <= i < pow2(c.v as nat) ==> #[trigger] t.cell(layout::time_hi_col(c.v), i)
                == c.times.hi@[i],
        forall|i: int|
            0 <= i < pow2(c.v as nat) ==> #[trigger] t.cell(layout::time_lo_col(c.v), i)
                == c.times.lo@[i],
        forall|l: int, i: int|
            0 <= l < 2 * c.v - 1 && 0 <= i < pow2(c.v as nat) ==> #[trigger] t.cell(
                layout::switch_col(c.v, l),
                i,
            ) == c.switches[l]@[i],
        forall|i: int|
            0 <= i < pow2(c.v as nat) ==> #[trigger] t.limb(layout::slack_sorted(c.v), i)
                == c.keys.slack@[i],
        forall|i: int|
            0 <= i < pow2(c.v as nat) ==> #[trigger] t.limb(layout::slack_original(c.v), i)
                == c.times.slack@[i],
        forall|g: int, p: int, i: int|
            0 <= g < 2 * c.v && 0 <= p < PAYLOAD_CELLS && 0 <= i < pow2(c.v as nat)
                ==> #[trigger] t.limb(layout::col(g, p), i) == benes::network_out(
                c.sorted_rows,
                c.v,
                c.layers,
                g,
            )[i]@[p],
{
    let v = c.v;
    let n = pow2(v as nat) as int;
    assert forall|k: int| 0 <= k < layout::num_bp(v) implies (#[trigger] t.binary_poly@[k])@.len()
        == n by {
        if k < 42 * v {
            assert(t.binary_poly@[k] == c.columns[k]);
        }
    }
    assert forall|k: int| 0 <= k < layout::num_int(v) implies (#[trigger] t.int@[k])@.len() == n by {
        if k <= v {
            assert(t.int@[k] == c.public[k]);
        } else if k < v + 11 {
            assert(t.int@[k] == c.keys.selectors@[k - v - 1]);
        } else if k >= v + 14 {
            assert(t.int@[k] == c.switches[k - v - 14]);
        }
    }
    assert forall|k: int, i: int| 0 <= k <= v && 0 <= i < n implies #[trigger] t.cell(k, i)
        == trace::public_cell(k, i) by {
        assert(t.int@[k] == c.public[k]);
        assert(c.public[k]@[i] == trace::public_cell(k, i));
    }
    assert forall|j: int, i: int| 0 <= j < NUM_LEX_LIMBS && 0 <= i < n implies #[trigger] t.cell(
        layout::selector_col(v, j),
        i,
    ) == c.keys.selectors@[j]@[i] by {
        assert(t.int@[v + 1 + j] == c.keys.selectors@[j]);
    }
    assert(t.int@[v + 11] == c.keys.helper);
    assert(t.int@[v + 12] == c.times.hi);
    assert(t.int@[v + 13] == c.times.lo);
    assert forall|l: int, i: int| 0 <= l < 2 * v - 1 && 0 <= i < n implies #[trigger] t.cell(
        layout::switch_col(v, l),
        i,
    ) == c.switches[l]@[i] by {
        assert(t.int@[v + 14 + l] == c.switches[l]);
    }
    assert(t.binary_poly@[42 * v] == c.keys.slack);
    assert(t.binary_poly@[42 * v + 1] == c.times.slack);
    assert forall|g: int, p: int, i: int|
        0 <= g < 2 * v && 0 <= p < PAYLOAD_CELLS && 0 <= i < n implies #[trigger] t.limb(
        layout::col(g, p),
        i,
    ) == benes::network_out(c.sorted_rows, v, c.layers, g)[i]@[p] by {
        assert(t.binary_poly@[layout::col(g, p)] == c.columns[layout::col(g, p)]);
        assert(c.columns[layout::col(g, p)]@[i] == benes::network_out(
            c.sorted_rows,
            v,
            c.layers,
            g,
        )[i]@[p]);
    }
}

/// The payloads of an assembled trace are the network states.
proof fn lemma_assembled_payload(t: UairTrace, c: Parts, g: int, i: int)
    requires
        parts_fit(c),
        assembled(t, c),
        0 <= g < 2 * c.v,
        0 <= i < pow2(c.v as nat),
    ensures
        trace::payload(t, g, i) == benes::network_out(c.sorted_rows, c.v, c.layers, g)[i]@,
        g == 0 ==> trace::payload(t, g, i) == c.sorted_rows[i]@,
        g == 2 * c.v - 1 ==> trace::payload(t, g, i) == c.original_rows[i]@,
{
    let v = c.v;
    let n = pow2(v as nat) as int;
    lemma_assembled_cells(t, c);
    let state = benes::network_out(c.sorted_rows, v, c.layers, g);
    state[i].lemma_len();
    assert forall|p: int| 0 <= p < PAYLOAD_CELLS implies trace::payload(t, g, i)[p] == state[i]@[p] by {
        assert(t.limb(layout::col(g, p), i) == state[i]@[p]);
    }
    assert(trace::payload(t, g, i) =~= state[i]@);
    if g == 2 * v - 1 {
        benes::routed_networks_deliver_the_permutation(c.sorted_rows, v, c.layers, c.perm);
        let j = c.perm[i] as int;
        assert(c.perm[i] < n);
        assert(state[i] == c.sorted_rows[j]);
        assert(limbs::encodes(c.sorted_rows[j]@, padded_sorted(c.o, c.order, n)[j]));
        assert(limbs::encodes(c.original_rows[i]@, padded_original(c.o, c.order, n)[i]));
        assert(padded_sorted(c.o, c.order, n)[j] == padded_original(c.o, c.order, n)[i]);
        limbs::lemma_encoding_unique(
            c.sorted_rows[j]@,
            c.original_rows[i]@,
            padded_original(c.o, c.order, n)[i],
        );
    }
}

proof fn lemma_assembled_layer(t: UairTrace, c: Parts, i: int, l: int)
    requires
        parts_fit(c),
        assembled(t, c),
        0 <= i < pow2(c.v as nat) - 1,
        0 <= l < 2 * c.v - 1,
    ensures
        uair::layer_ok(c.v, trace::row_at(t, c.v, i), l),
{
    let v = c.v;
    let n = pow2(v as nat) as int;
    let row = trace::row_at(t, v, i);
    let s = benes::stride_of(v, l);
    let k = benes::stride_bit_of(v, l);
    let bits = c.layers[l]@;
    lemma_assembled_cells(t, c);
    assert(t.cell(layout::upper_col(k), i) == trace::public_cell(layout::upper_col(k), i));
    assert(t.cell(layout::switch_col(v, l), i) == c.switches[l]@[i]);
    if benes::is_upper(i, s) {
        benes::lemma_pairs(bits, v, l, i);
        let set = bits[i];
        benes::networks_keep_the_contents(c.sorted_rows, v, c.layers, l);
        assert forall|p: int| 0 <= p < PAYLOAD_CELLS implies #[trigger] uair::switched(
            v,
            row,
            l,
            p,
            set,
        ) by {
            trace::lemma_cells(t, v, i, l, p);
            trace::lemma_cells(t, v, i, l + 1, p);
            assert(layout::read_below(v, l, p, s));
            assert(layout::read_below(v, l + 1, p, s));
            lemma_assembled_payload(t, c, l, i);
            lemma_assembled_payload(t, c, l, i + s);
            lemma_assembled_payload(t, c, l + 1, i);
            lemma_assembled_payload(t, c, l + 1, i + s);
            assert(uair::below(v, row, l, p, s) == trace::payload(t, l, i + s)[p]);
            assert(uair::below(v, row, l + 1, p, s) == trace::payload(t, l + 1, i + s)[p]);
        }
    }
}

proof fn lemma_assembled_row(t: UairTrace, c: Parts, i: int)
    requires
        parts_fit(c),
        assembled(t, c),
        0 <= i < pow2(c.v as nat) - 1,
    ensures
        framed(c.v, trace::row_at(t, c.v, i)),
{
    let v = c.v;
    let row = trace::row_at(t, v, i);
    lemma_assembled_cells(t, c);
    lemma_assembled_payload(t, c, 0, i);
    lemma_assembled_payload(t, c, 0, i + 1);
    lemma_assembled_payload(t, c, 2 * v - 1, i);
    lemma_assembled_payload(t, c, 2 * v - 1, i + 1);
    let a = c.sorted_rows[i]@;
    let b = c.sorted_rows[i + 1]@;
    assert(key_row(c.keys, c.sorted_rows, i));
    let k = choose|k: int| #[trigger] key_cells(c.keys, c.sorted_rows, i, k);
    assert forall|j: int| 0 <= j < 10 || j == 20 implies uair::here(row, 0, j) == #[trigger] a[j]
        && uair::below(v, row, 0, j, 1) == b[j] by {
        trace::lemma_cells(t, v, i, 0, j);
        assert(layout::read_below(v, 0, j, 1));
        assert(uair::below(v, row, 0, j, 1) == trace::payload(t, 0, i + 1)[j]);
    }
    assert(a[20] == a[20]);
    assert forall|j: int| 0 <= j < NUM_LEX_LIMBS implies #[trigger] uair::selector(v, row, j) == if j
        == k {
        1int
    } else {
        0
    } by {
        assert(t.cell(layout::selector_col(v, j), i) == c.keys.selectors@[j]@[i]);
    }
    assert forall|j: int| 0 <= j < k implies #[trigger] uair::below(v, row, 0, j, 1) == uair::here(
        row,
        0,
        j,
    ) by {
        assert(a[j] == b[j]);
    }
    assert(a[k] < b[k]);
    assert(t.limb(layout::slack_sorted(v), i) == c.keys.slack@[i]);
    assert(t.cell(layout::helper_col(v), i) == c.keys.helper@[i]);
    assert(uair::key_step(v, row, k));
    let g = 2 * v - 1;
    assert(time_cells(c.times, c.original_rows, i));
    trace::lemma_cells(t, v, i, g, 8);
    trace::lemma_cells(t, v, i, g, 9);
    assert(layout::read_below(v, g, 8, 1));
    assert(layout::read_below(v, g, 9, 1));
    assert(uair::below(v, row, g, 8, 1) == trace::payload(t, g, i + 1)[8]);
    assert(uair::below(v, row, g, 9, 1) == trace::payload(t, g, i + 1)[9]);
    assert(t.limb(layout::slack_original(v), i) == c.times.slack@[i]);
    assert(t.cell(layout::time_hi_col(v), i) == c.times.hi@[i]);
    assert(t.cell(layout::time_lo_col(v), i) == c.times.lo@[i]);
    assert(uair::time_step(v, row));
    assert forall|l: int| 0 <= l < 2 * v - 1 implies #[trigger] uair::layer_ok(v, row, l) by {
        lemma_assembled_layer(t, c, i, l);
    }
}

proof fn lemma_assembled(t: UairTrace, c: Parts)
    requires
        parts_fit(c),
        assembled(t, c),
    ensures
        is_witness(t, c.v, c.o, c.order),
{
    let v = c.v;
    let n = pow2(v as nat) as int;
    lemma_assembled_cells(t, c);
    assert forall|i: int| 0 <= i < n implies limbs::encodes(
        #[trigger] trace::payload(t, 0, i),
        padded_sorted(c.o, c.order, n)[i],
    ) by {
        lemma_assembled_payload(t, c, 0, i);
        assert(limbs::encodes(c.sorted_rows[i]@, padded_sorted(c.o, c.order, n)[i]));
    }
    assert forall|i: int| 0 <= i < n implies limbs::encodes(
        #[trigger] trace::payload(t, 2 * v - 1, i),
        padded_original(c.o, c.order, n)[i],
    ) by {
        lemma_assembled_payload(t, c, 2 * v - 1, i);
        assert(limbs::encodes(c.original_rows[i]@, padded_original(c.o, c.order, n)[i]));
    }
    assert forall|i: int| 0 <= i < n - 1 implies framed(v, #[trigger] trace::row_at(t, v, i)) by {
        lemma_assembled_row(t, c, i);
    }
    let last = trace::row_at(t, v, n - 1);
    assert forall|k: int|
        layout::selector_col(v, 0) <= k < layout::switch_col(v, 0) implies #[trigger] last.int[k]
        == 0 by {
        if k < v + 11 {
            assert(t.cell(layout::selector_col(v, k - v - 1), n - 1) == c.keys.selectors@[k - v
                - 1]@[n - 1]);
        } else {
            assert(t.cell(layout::helper_col(v), n - 1) == c.keys.helper@[n - 1]);
            assert(t.cell(layout::time_hi_col(v), n - 1) == c.times.hi@[n - 1]);
            assert(t.cell(layout::time_lo_col(v), n - 1) == c.times.lo@[n - 1]);
        }
    }
    assert(t.limb(layout::slack_sorted(v), n - 1) == c.keys.slack@[n - 1]);
    assert(t.limb(layout::slack_original(v), n - 1) == c.times.slack@[n - 1]);
    assert(closed_off(v, last));
    assert forall|l: int, i: int| 0 <= l < 2 * v - 1 && 0 <= i < n implies {
        let bit = #[trigger] t.cell(layout::switch_col(v, l), i);
        bit == 0 || (bit == 1 && benes::is_upper(i, benes::stride_of(v, l)))
    } by {
        assert(c.switches[l]@[i] == if c.layers[l]@[i] {
            1i64
        } else {
            0
        });
        assert(c.layers[l]@.len() == n);
    }
    assert forall|l: int, i: int| 0 <= l < 2 * v - 1 && 0 <= i < n implies #[trigger] t.cell(
        layout::switch_col(v, l),
        i,
    ) == if benes::routed(linking(c.order, n), v, l, i) {
        1i64
    } else {
        0
    } by {
        assert(c.switches[l]@[i] == if c.layers[l]@[i] {
            1i64
        } else {
            0
        });
        assert(c.layers[l]@[i] == benes::routed(c.perm, v, l, i));
    }
}

/// `t` is a trace on `2^v` rows for the execution trace `o`.
pub open spec fn witnesses(t: UairTrace, v: int, o: Seq<Access>) -> bool {
    exists|order: Seq<usize>| #[trigger] sorts(order, o) && is_witness(t, v, o, order)
}

/// The trace of the constraint system for an execution trace whose times
/// increase, with the exponent of its row count. At least one padding row is
/// kept, so no record stands in the last row, which no constraint anchors.
#[verifier::rlimit(40)]
pub fn build_uair_trace_any_start(records: &[TraceRecord]) -> (out: Result<
    (UairTrace, usize),
    ZincMemoryError,
>)
    ensures
        match rejection(machine::accesses(records@)) {
            Some(e) => out == Err::<(UairTrace, usize), ZincMemoryError>(e),
            None => out matches Ok((t, v)) && v == exponent_for(records@.len() as int) && witnesses(
                t,
                v as int,
                machine::accesses(records@),
            ),
        },
{
    let ghost o = machine::accesses(records@);
    let len = records.len();
    if len == 0 {
        return Err(ZincMemoryError::EmptyTrace);
    }
    proof {
        lemma_first_unordered(o, 0);
        lemma2_to64();
    }
    if let Err(e) = check_times(records) {
        return Err(e);
    }
    if len >= benes::power_of_two(MAX_NUM_VARS) {
        return Err(ZincMemoryError::TraceTooLong);
    }
    let num_vars: usize = num_vars_for(len);
    let num_rows: usize = benes::power_of_two(num_vars);
    let order = order::sort_order(records);
    let sorted = order::reordered(records, &order);
    let padding_records = match pad(records, sorted[len - 1], num_rows - len) {
        Some(p) => p,
        None => {
            return Err(ZincMemoryError::TimeLogOverflow);
        },
    };
    let ghost n = num_rows as int;
    let original_records = chained(records, &padding_records);
    let sorted_records = chained(sorted.as_slice(), &padding_records);
    let original_rows = limbs_of(&original_records);
    let sorted_rows = limbs_of(&sorted_records);
    proof {
        lemma_accepted(o);
        lemma_padded_orders(o, order@, n);
        let sp = padded_sorted(o, order@, n);
        let op = padded_original(o, order@, n);
        assert(machine::accesses(sorted@) =~= sorted_trace(o, order@));
        assert(sorted@[len - 1]@ == machine::accesses(sorted@)[len - 1]);
        assert(machine::accesses(original_records@) =~= op);
        assert(machine::accesses(sorted_records@) =~= sp);
        assert forall|i: int| 0 <= i < n implies limbs::encodes(
            (#[trigger] sorted_rows@[i])@,
            sp[i],
        ) by {
            assert(machine::accesses(sorted_records@)[i] == sp[i]);
        }
        assert forall|i: int| 0 <= i < n implies limbs::encodes(
            (#[trigger] original_rows@[i])@,
            op[i],
        ) by {
            assert(machine::accesses(original_records@)[i] == op[i]);
        }
        assert forall|i: int| 0 <= i < n - 1 implies consistency::precedes(
            trace::access_of((#[trigger] sorted_rows@[i])@),
            trace::access_of(sorted_rows@[i + 1]@),
        ) by {
            assert(consistency::precedes(sp[i], sp[i + 1]));
            assert(limbs::encodes(sorted_rows@[i + 1]@, sp[i + 1]));
        }
        assert forall|i: int| 0 <= i < n - 1 implies trace::access_of(
            (#[trigger] original_rows@[i])@,
        ).time < trace::access_of(original_rows@[i + 1]@).time by {
            assert(op[i].time < op[i + 1].time);
            assert(limbs::encodes(original_rows@[i + 1]@, op[i + 1]));
        }
    }
    let keys = key_columns(&sorted_rows);
    let times = time_columns(&original_rows);
    let perm = linking_permutation(&order, num_rows);
    let layers = benes::route(perm.as_slice());
    let mut binary_poly = network_columns(sorted_rows, num_vars, &layers);
    let mut integers = public_int_columns(num_vars);
    let mut switches = switch_columns(&layers);
    let ghost parts = Parts {
        v: num_vars as int,
        o,
        order: order@,
        sorted_rows: sorted_rows@,
        original_rows: original_rows@,
        keys,
        times,
        perm: perm@,
        layers: layers@,
        columns: binary_poly@,
        public: integers@,
        switches: switches@,
    };
    assert(parts_fit(parts)) by {
        assert forall|l: int| 0 <= l < 2 * num_vars - 1 implies (
        #[trigger] parts.switches[l])@.len() == n by {
            assert(layers@[l]@.len() == n);
        }
        assert forall|l: int, i: int|
            0 <= l < 2 * num_vars - 1 && 0 <= i < n implies #[trigger] parts.switches[l]@[i]
            == if parts.layers[l]@[i] {
            1i64
        } else {
            0
        } by {
            assert(layers@[l]@.len() == n);
        }
    }
    let KeyColumns { mut selectors, slack: slack_sorted, helper } = keys;
    let TimeColumns { hi, lo, slack: slack_original } = times;
    binary_poly.push(slack_sorted);
    binary_poly.push(slack_original);
    integers.append(&mut selectors);
    integers.push(helper);
    integers.push(hi);
    integers.push(lo);
    integers.append(&mut switches);
    let t = UairTrace { binary_poly, int: integers };
    proof {
        assert(t.int@ =~= parts.public + parts.keys.selectors@ + seq![
            parts.keys.helper,
            parts.times.hi,
            parts.times.lo,
        ] + parts.switches);
        assert(assembled(t, parts));
        lemma_assembled(t, parts);
        assert(sorts(order@, o));
    }
    Ok((t, num_vars))
}

/// The trace of the constraint system for an execution trace that starts at
/// time zero and whose times increase, with the exponent of its row count.
pub fn build_uair_trace(records: &[TraceRecord]) -> (out: Result<
    (UairTrace, usize),
    ZincMemoryError,
>)
    ensures
        match input_rejection(machine::accesses(records@)) {
            Some(e) => out == Err::<(UairTrace, usize), ZincMemoryError>(e),
            None => out matches Ok((t, v)) && v == exponent_for(records@.len() as int) && witnesses(
                t,
                v as int,
                machine::accesses(records@),
            ),
        },
{
    if records.len() > 0 {
        let time: u64 = records[0].time_log();
        if time != 0 {
            return Err(ZincMemoryError::FirstTimeNonZero { time_log: time });
        }
    }
    build_uair_trace_any_start(records)
}

} // verus!
