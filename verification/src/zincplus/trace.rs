//! Traces of the constraint system and what satisfying it shows of them.

use crate::consistency;
use crate::digits;
use crate::machine::Access;
use crate::zincplus::benes;
use crate::zincplus::expr::Row;
use crate::zincplus::layout;
use crate::zincplus::layout::{NUM_LEX_LIMBS, PAYLOAD_CELLS, PL_INSTR, PL_TIME};
use crate::zincplus::uair;
use vstd::arithmetic::power2::*;
use vstd::prelude::*;

verus! {

/// The columns of a trace. A binary-polynomial cell is the 32 bits of its
/// coefficients.
#[derive(Clone, Debug)]
pub struct UairTrace {
    /// The binary-polynomial columns.
    pub binary_poly: Vec<Vec<u32>>,
    /// The integer columns, the public ones first.
    pub int: Vec<Vec<i64>>,
}

impl UairTrace {
    /// The binary-polynomial cell of column `c` in row `i`.
    pub open spec fn limb(&self, c: int, i: int) -> u32 {
        self.binary_poly@[c]@[i]
    }

    /// The integer cell of column `c` in row `i`.
    pub open spec fn cell(&self, c: int, i: int) -> i64 {
        self.int@[c]@[i]
    }
}

/// The trace has the columns of a system on `2^v` rows, each `2^v` long.
pub open spec fn shaped(t: UairTrace, v: int) -> bool {
    &&& t.binary_poly@.len() == layout::num_bp(v)
    &&& t.int@.len() == layout::num_int(v)
    &&& forall|c: int| 0 <= c < layout::num_bp(v) ==> (#[trigger] t.binary_poly@[c])@.len() == pow2(v as nat)
    &&& forall|c: int| 0 <= c < layout::num_int(v) ==> (#[trigger] t.int@[c])@.len() == pow2(v as nat)
}

/// The cell in row `i` of public integer column `c`: column zero tells the
/// first row, column `1 + k` the rows whose index has bit `k` clear.
pub open spec fn public_cell(c: int, i: int) -> i64 {
    if c == 0 {
        if i == 0 {
            1
        } else {
            0
        }
    } else {
        if benes::is_upper(i, pow2((c - 1) as nat) as int) {
            1
        } else {
            0
        }
    }
}

/// The public columns of the trace are the ones of a system on `2^v` rows.
pub open spec fn public_as_fixed(t: UairTrace, v: int) -> bool {
    forall|c: int, i: int|
        0 <= c <= v && 0 <= i < pow2(v as nat) ==> #[trigger] t.cell(c, i) == public_cell(c, i)
}

/// The cells that the constraints of row `i` read. A shift past the last row
/// reaches zero.
pub open spec fn row_at(t: UairTrace, v: int, i: int) -> Row {
    Row {
        up: Seq::new(layout::num_bp(v) as nat, |c: int| t.limb(c, i)),
        int: Seq::new(layout::num_int(v) as nat, |c: int| t.cell(c, i)),
        down: Seq::new(
            layout::shift_list(v).len(),
            |k: int|
                {
                    let (c, a) = layout::shift_list(v)[k];
                    if i + a < pow2(v as nat) {
                        t.limb(c as int, i + a)
                    } else {
                        0
                    }
                },
        ),
    }
}

/// The trace satisfies the system on `2^v` rows: it has its columns, its
/// public cells are the fixed ones, and every row but the last meets the
/// constraints.
pub open spec fn satisfied(t: UairTrace, v: int) -> bool {
    &&& shaped(t, v)
    &&& public_as_fixed(t, v)
    &&& forall|i: int| 0 <= i < pow2(v as nat) - 1 ==> uair::row_ok(v, #[trigger] row_at(t, v, i))
}

/// The record that network state `g` holds in row `i`, as limbs.
pub open spec fn payload(t: UairTrace, g: int, i: int) -> Seq<u32> {
    Seq::new(PAYLOAD_CELLS as nat, |p: int| t.limb(layout::col(g, p), i))
}

/// The access that a record's limbs write.
pub open spec fn access_of(limbs: Seq<u32>) -> Access {
    Access {
        address: digits::limbs_value(limbs.subrange(0, 8)),
        time: digits::limbs_value(limbs.subrange(8, 10)),
        stack_depth: digits::limbs_value(limbs.subrange(10, 12)),
        value: digits::limbs_value(limbs.subrange(12, 20)),
        write: limbs[20] == 1,
    }
}

/// The records that network state `g` holds, as limbs.
pub open spec fn state(t: UairTrace, v: int, g: int) -> Seq<Seq<u32>> {
    Seq::new(pow2(v as nat), |i: int| payload(t, g, i))
}

/// The accesses that network state `g` holds.
pub open spec fn trace_of(t: UairTrace, v: int, g: int) -> Seq<Access> {
    Seq::new(pow2(v as nat), |i: int| access_of(payload(t, g, i)))
}

/// The switch bits of layer `l`.
pub open spec fn switch_bits(t: UairTrace, v: int, l: int) -> Seq<bool> {
    Seq::new(pow2(v as nat), |i: int| t.cell(layout::switch_col(v, l), i) == 1)
}

/// The cells of a row, in terms of the columns.
pub proof fn lemma_cells(t: UairTrace, v: int, i: int, g: int, p: int)
    requires
        layout::supported(v),
        0 <= i < pow2(v as nat),
        0 <= g < 2 * v,
        0 <= p < PAYLOAD_CELLS,
    ensures
        uair::here(row_at(t, v, i), g, p) == t.limb(layout::col(g, p), i),
        uair::here(row_at(t, v, i), g, p) == payload(t, g, i)[p],
        forall|a: int|
            0 <= a && i + a < pow2(v as nat) && layout::read_below(v, g, p, a)
                ==> #[trigger] uair::below(v, row_at(t, v, i), g, p, a) == t.limb(
                layout::col(g, p),
                i + a,
            ) && uair::below(v, row_at(t, v, i), g, p, a) == payload(t, g, i + a)[p],
{
    lemma_rows(v);
    assert forall|a: int|
        0 <= a && i + a < pow2(v as nat) && layout::read_below(v, g, p, a) implies #[trigger] uair::below(
        v,
        row_at(t, v, i),
        g,
        p,
        a,
    ) == t.limb(layout::col(g, p), i + a) && uair::below(v, row_at(t, v, i), g, p, a) == payload(
        t,
        g,
        i + a,
    )[p] by {
        layout::lemma_down_position(v, g, p, a);
    }
}

/// Row counts stay far below the word size.
pub proof fn lemma_rows(v: int)
    requires
        layout::supported(v),
    ensures
        8 <= pow2(v as nat) <= 0x1_0000,
{
    lemma2_to64();
    if v > 3 {
        lemma_pow2_strictly_increases(3, v as nat);
    }
    if v < 16 {
        lemma_pow2_strictly_increases(v as nat, 16);
    }
}

// ---------------------------------------------------------------------------
// The network.
// ---------------------------------------------------------------------------

/// Each layer of a network whose rows meet the layer's constraints delivers
/// its switched input.
pub proof fn lemma_layer_out(t: UairTrace, v: int, l: int)
    requires
        layout::supported(v),
        0 <= l < 2 * v - 1,
        public_as_fixed(t, v),
        forall|i: int|
            0 <= i < pow2(v as nat) - 1 ==> uair::layer_ok(v, #[trigger] row_at(t, v, i), l),
    ensures
        state(t, v, l + 1) == benes::layer_out(state(t, v, l), v, l, switch_bits(t, v, l)),
        trace_of(t, v, l + 1) == benes::layer_out(trace_of(t, v, l), v, l, switch_bits(t, v, l)),
{
    let n = pow2(v as nat) as int;
    let s = benes::stride_of(v, l);
    let k = benes::stride_bit_of(v, l);
    let bits = switch_bits(t, v, l);
    assert forall|w: int| 0 <= w < n implies payload(t, l + 1, w) == payload(
        t,
        l,
        #[trigger] benes::source(bits, s, w),
    ) && 0 <= benes::source(bits, s, w) < n by {
        benes::lemma_pairs(bits, v, l, w);
        let i = if benes::is_upper(w, s) {
            w
        } else {
            w - s
        };
        let row = row_at(t, v, i);
        assert(t.cell(layout::upper_col(k), i) == public_cell(layout::upper_col(k), i));
        assert(uair::layer_ok(v, row, l));
        let set = t.cell(layout::switch_col(v, l), i) == 1;
        assert forall|p: int| 0 <= p < PAYLOAD_CELLS implies payload(t, l + 1, w)[p] == payload(
            t,
            l,
            benes::source(bits, s, w),
        )[p] by {
            assert(uair::switched(v, row, l, p, set));
            lemma_cells(t, v, i, l, p);
            lemma_cells(t, v, i, l + 1, p);
            assert(layout::read_below(v, l, p, s));
            assert(layout::read_below(v, l + 1, p, s));
        }
        assert(payload(t, l + 1, w) =~= payload(t, l, benes::source(bits, s, w)));
    }
    assert(state(t, v, l + 1) =~= benes::layer_out(state(t, v, l), v, l, bits)) by {
        assert forall|w: int| 0 <= w < n implies state(t, v, l + 1)[w] == benes::layer_out(
            state(t, v, l),
            v,
            l,
            bits,
        )[w] by {
            assert(payload(t, l + 1, w) == payload(t, l, benes::source(bits, s, w)));
        }
    }
    assert(trace_of(t, v, l + 1) =~= benes::layer_out(trace_of(t, v, l), v, l, bits)) by {
        assert forall|w: int| 0 <= w < n implies trace_of(t, v, l + 1)[w] == benes::layer_out(
            trace_of(t, v, l),
            v,
            l,
            bits,
        )[w] by {
            assert(payload(t, l + 1, w) == payload(t, l, benes::source(bits, s, w)));
        }
    }
}

/// Every network state of a satisfying trace holds the records of the sorted
/// trace, limb for limb, each the same number of times.
pub proof fn network_states_hold_the_same_records(t: UairTrace, v: int, g: int)
    requires
        layout::supported(v),
        satisfied(t, v),
        0 <= g < 2 * v,
    ensures
        state(t, v, g).to_multiset() == state(t, v, 0).to_multiset(),
        consistency::rearranged(trace_of(t, v, 0), trace_of(t, v, g)),
    decreases g,
{
    if g > 0 {
        network_states_hold_the_same_records(t, v, g - 1);
        assert forall|i: int| 0 <= i < pow2(v as nat) - 1 implies uair::layer_ok(
            v,
            #[trigger] row_at(t, v, i),
            g - 1,
        ) by {
            assert(uair::row_ok(v, row_at(t, v, i)));
        }
        lemma_layer_out(t, v, g - 1);
        let bits = switch_bits(t, v, g - 1);
        benes::layers_keep_the_contents(state(t, v, g - 1), v, g - 1, bits);
        benes::layers_keep_the_contents(trace_of(t, v, g - 1), v, g - 1, bits);
    }
}

// ---------------------------------------------------------------------------
// The orders.
// ---------------------------------------------------------------------------

/// Where the key of the sorted trace steps up, the next access comes later in
/// the order by address and time, at the same address exactly when the first
/// difference is in the time.
pub proof fn lemma_key_step(t: UairTrace, v: int, i: int, k: int)
    requires
        layout::supported(v),
        0 <= i < pow2(v as nat) - 1,
        0 <= k < NUM_LEX_LIMBS,
        uair::key_step(v, row_at(t, v, i), k),
    ensures
        consistency::precedes(trace_of(t, v, 0)[i], trace_of(t, v, 0)[i + 1]),
        trace_of(t, v, 0)[i].address == trace_of(t, v, 0)[i + 1].address <==> k >= 8,
{
    let row = row_at(t, v, i);
    let a = payload(t, 0, i);
    let b = payload(t, 0, i + 1);
    assert forall|j: int| 0 <= j < 10 implies uair::here(row, 0, j) == #[trigger] a[j]
        && uair::below(v, row, 0, j, 1) == b[j] by {
        lemma_cells(t, v, i, 0, j);
        assert(layout::read_below(v, 0, j, 1));
        assert(uair::below(v, row, 0, j, 1) == payload(t, 0, i + 1)[j]);
    }
    assert forall|j: int| 0 <= j < k implies a[j] == b[j] by {
        assert(uair::below(v, row, 0, j, 1) == uair::here(row, 0, j));
        assert(a[j] == uair::here(row, 0, j));
    }
    assert(a[k] < b[k]);
    if k < 8 {
        digits::lemma_limbs_less(a.subrange(0, 8), b.subrange(0, 8), k);
    } else {
        assert(a.subrange(0, 8) =~= b.subrange(0, 8));
        digits::lemma_limbs_less(a.subrange(8, 10), b.subrange(8, 10), k - 8);
    }
}

/// Where the key steps up, the next access agrees with this one exactly when
/// the value steps do.
pub proof fn lemma_value_step(t: UairTrace, v: int, i: int, k: int)
    requires
        layout::supported(v),
        0 <= i < pow2(v as nat) - 1,
        0 <= k < NUM_LEX_LIMBS,
        uair::key_step(v, row_at(t, v, i), k),
    ensures
        uair::value_step(v, row_at(t, v, i), k) <==> consistency::step_consistent(
            trace_of(t, v, 0)[i],
            trace_of(t, v, 0)[i + 1],
        ),
{
    lemma_key_step(t, v, i, k);
    let row = row_at(t, v, i);
    let a = payload(t, 0, i);
    let b = payload(t, 0, i + 1);
    assert forall|j: int| 12 <= j < 21 implies uair::here(row, 0, j) == #[trigger] a[j]
        && uair::below(v, row, 0, j, 1) == b[j] by {
        lemma_cells(t, v, i, 0, j);
        assert(layout::read_below(v, 0, j, 1));
        assert(uair::below(v, row, 0, j, 1) == payload(t, 0, i + 1)[j]);
    }
    let c = a.subrange(12, 20);
    let d = b.subrange(12, 20);
    assert(b[20] == uair::below(v, row, 0, 20, 1)) by {
        assert(a[20] == a[20]);
    }
    if digits::limbs_value(c) == digits::limbs_value(d) {
        digits::lemma_limbs_unique(c, d);
        assert forall|j: int| 12 <= j < 20 implies #[trigger] uair::below(v, row, 0, j, 1)
            == uair::here(row, 0, j) by {
            assert(c[j - 12] == d[j - 12]);
            assert(a[j] == c[j - 12]);
        }
    }
    if forall|j: int|
        12 <= j < 20 ==> #[trigger] uair::below(v, row, 0, j, 1) == uair::here(row, 0, j) {
        assert forall|j: int| 0 <= j < 8 implies c[j] == d[j] by {
            assert(uair::below(v, row, 0, j + 12, 1) == uair::here(row, 0, j + 12));
            assert(a[j + 12] == c[j]);
        }
        assert(c =~= d);
    }
}

/// Where time steps up, the next access of the original trace is later.
pub proof fn lemma_time_step(t: UairTrace, v: int, i: int)
    requires
        layout::supported(v),
        0 <= i < pow2(v as nat) - 1,
        uair::time_step(v, row_at(t, v, i)),
    ensures
        trace_of(t, v, 2 * v - 1)[i].time < trace_of(t, v, 2 * v - 1)[i + 1].time,
{
    let g = 2 * v - 1;
    let a = payload(t, g, i).subrange(8, 10);
    let b = payload(t, g, i + 1).subrange(8, 10);
    lemma_cells(t, v, i, g, 8);
    lemma_cells(t, v, i, g, 9);
    assert(layout::read_below(v, g, 8, 1));
    assert(layout::read_below(v, g, 9, 1));
    assert(uair::below(v, row_at(t, v, i), g, 8, 1) == b[0]);
    assert(uair::below(v, row_at(t, v, i), g, 9, 1) == b[1]);
    if a[0] < b[0] {
        digits::lemma_limbs_less(a, b, 0);
    } else {
        digits::lemma_limbs_less(a, b, 1);
    }
}

/// A time of two zero limbs is zero, and only such a time is.
pub proof fn lemma_zero_time(limbs: Seq<u32>)
    requires
        limbs.len() == PAYLOAD_CELLS,
    ensures
        access_of(limbs).time == 0 <==> limbs[8] == 0 && limbs[9] == 0,
{
    let d = limbs.subrange(8, 10);
    digits::lemma_two_limbs(d[0], d[1]);
    assert(d =~= seq![d[0], d[1]]);
}

/// Times that increase from each access to the next increase throughout.
pub proof fn lemma_adjacent_times(o: Seq<Access>)
    requires
        forall|i: int| 0 <= i < o.len() - 1 ==> (#[trigger] o[i]).time < o[i + 1].time,
    ensures
        consistency::time_increases(o),
{
    assert forall|i: int, j: int| 0 <= i < j < o.len() implies (#[trigger] o[i]).time < (
    #[trigger] o[j]).time by {
        lemma_times_between(o, i, j);
    }
}

proof fn lemma_times_between(o: Seq<Access>, i: int, j: int)
    requires
        forall|i: int| 0 <= i < o.len() - 1 ==> (#[trigger] o[i]).time < o[i + 1].time,
        0 <= i < j < o.len(),
    ensures
        o[i].time < o[j].time,
    decreases j - i,
{
    if i + 1 < j {
        lemma_times_between(o, i, j - 1);
    }
    assert(o[j - 1].time < o[j - 1 + 1].time);
}

/// A trace in which each access precedes the next is sorted.
pub proof fn lemma_adjacent_order(s: Seq<Access>)
    requires
        forall|i: int| 0 <= i < s.len() - 1 ==> consistency::precedes(#[trigger] s[i], s[i + 1]),
    ensures
        consistency::sorted(s),
{
    assert forall|i: int, j: int| 0 <= i < j < s.len() implies consistency::precedes(
        #[trigger] s[i],
        #[trigger] s[j],
    ) by {
        lemma_order_between(s, i, j);
    }
}

proof fn lemma_order_between(s: Seq<Access>, i: int, j: int)
    requires
        forall|i: int| 0 <= i < s.len() - 1 ==> consistency::precedes(#[trigger] s[i], s[i + 1]),
        0 <= i < j < s.len(),
    ensures
        consistency::precedes(s[i], s[j]),
    decreases j - i,
{
    if i + 1 < j {
        lemma_order_between(s, i, j - 1);
    }
    assert(consistency::precedes(s[j - 1], s[j - 1 + 1]));
}

/// What a satisfying trace shows: its first network state is a consistent
/// sorted trace, its last network state is a rearrangement of it that starts
/// at time zero and in which time increases, and so every read of the latter
/// returns the last value written to its address.
pub proof fn satisfying_traces_are_consistent(t: UairTrace, v: int)
    requires
        layout::supported(v),
        satisfied(t, v),
    ensures
        consistency::sorted_consistent(trace_of(t, v, 0)),
        consistency::rearranged(trace_of(t, v, 0), trace_of(t, v, 2 * v - 1)),
        state(t, v, 2 * v - 1).to_multiset() == state(t, v, 0).to_multiset(),
        consistency::statement(trace_of(t, v, 2 * v - 1)),
{
    let n = pow2(v as nat) as int;
    let s = trace_of(t, v, 0);
    let o = trace_of(t, v, 2 * v - 1);
    lemma_rows(v);
    network_states_hold_the_same_records(t, v, 2 * v - 1);
    assert forall|i: int| 0 <= i < n - 1 implies consistency::precedes(#[trigger] s[i], s[i + 1])
        && consistency::step_consistent(s[i], s[i + 1]) by {
        let row = row_at(t, v, i);
        assert(uair::row_ok(v, row));
        let k = choose|k: int|
            0 <= k < NUM_LEX_LIMBS && #[trigger] uair::key_step(v, row, k) && uair::value_step(
                v,
                row,
                k,
            );
        lemma_key_step(t, v, i, k);
        lemma_value_step(t, v, i, k);
    }
    lemma_adjacent_order(s);
    assert forall|i: int| 0 <= i < n - 1 implies (#[trigger] o[i]).time < o[i + 1].time by {
        assert(uair::row_ok(v, row_at(t, v, i)));
        lemma_time_step(t, v, i);
    }
    lemma_adjacent_times(o);
    let first = row_at(t, v, 0);
    assert(uair::row_ok(v, first));
    assert(t.cell(0, 0) == public_cell(0, 0));
    lemma_cells(t, v, 0, 0, PL_INSTR as int);
    lemma_cells(t, v, 0, 2 * v - 1, PL_TIME as int);
    lemma_cells(t, v, 0, 2 * v - 1, PL_TIME + 1);
    lemma_zero_time(payload(t, 2 * v - 1, 0));
    consistency::sorting_decides_consistency(s, o);
}

} // verus!
