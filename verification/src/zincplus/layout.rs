//! The columns of the memory-consistency constraint system.
//!
//! A trace has `2^v` rows. Its binary-polynomial columns hold one 32-bit limb
//! per cell: `2v` groups of [`PAYLOAD_CELLS`] columns, one per state of the
//! switching network (state `0` is the sorted trace, the last state the
//! original one), then two columns of slacks. Its integer columns hold the
//! public row indicators, the selectors and the switch bits.

use crate::zincplus::benes;
use vstd::arithmetic::power2::*;
use vstd::prelude::*;

verus! {

/// Number of 32-bit limbs of an address.
pub const NUM_ADDR_LIMBS: usize = 8;

/// Number of 32-bit limbs of a time.
pub const NUM_TIME_LIMBS: usize = 2;

/// Number of 32-bit limbs of a stack depth.
pub const NUM_STACK_DEPTH_LIMBS: usize = 2;

/// Number of 32-bit limbs of a value.
pub const NUM_VALUE_LIMBS: usize = 8;

/// Number of limbs compared lexicographically: address, then time.
pub const NUM_LEX_LIMBS: usize = NUM_ADDR_LIMBS + NUM_TIME_LIMBS;

/// Payload offset of the address limbs.
pub const PL_ADDR: usize = 0;

/// Payload offset of the time limbs.
pub const PL_TIME: usize = PL_ADDR + NUM_ADDR_LIMBS;

/// Payload offset of the stack depth limbs.
pub const PL_STACK_DEPTH: usize = PL_TIME + NUM_TIME_LIMBS;

/// Payload offset of the value limbs.
pub const PL_VALUE: usize = PL_STACK_DEPTH + NUM_STACK_DEPTH_LIMBS;

/// Payload offset of the instruction cell.
pub const PL_INSTR: usize = PL_VALUE + NUM_VALUE_LIMBS;

/// Number of cells of one record, as it is routed through the network.
pub const PAYLOAD_CELLS: usize = PL_INSTR + 1;

/// The smallest supported exponent of the row count.
pub const MIN_NUM_VARS: usize = 3;

/// The largest supported exponent of the row count.
pub const MAX_NUM_VARS: usize = 16;

/// `2^v` rows are supported.
pub open spec fn supported(v: int) -> bool {
    MIN_NUM_VARS <= v <= MAX_NUM_VARS
}

/// The binary column of payload cell `p` of network state `g`: each state has
/// [`PAYLOAD_CELLS`] columns.
pub open spec fn col(g: int, p: int) -> int {
    21 * g + p
}

/// The binary column of the sorted trace's slack.
pub open spec fn slack_sorted(v: int) -> int {
    42 * v
}

/// The binary column of the original trace's slack.
pub open spec fn slack_original(v: int) -> int {
    42 * v + 1
}

/// The integer column that tells rows whose index has bit `k` clear.
pub open spec fn upper_col(k: int) -> int {
    1 + k
}

/// The integer column of selector `j`.
pub open spec fn selector_col(v: int, j: int) -> int {
    v + 1 + j
}

/// The integer column of the product of address equality and instruction.
pub open spec fn helper_col(v: int) -> int {
    v + 1 + NUM_LEX_LIMBS
}

/// The integer column that selects the high time limb.
pub open spec fn time_hi_col(v: int) -> int {
    v + 2 + NUM_LEX_LIMBS
}

/// The integer column that selects the low time limb.
pub open spec fn time_lo_col(v: int) -> int {
    v + 3 + NUM_LEX_LIMBS
}

/// The integer column of the switch bits of layer `l`.
pub open spec fn switch_col(v: int, l: int) -> int {
    v + 4 + NUM_LEX_LIMBS + l
}

/// Number of binary-polynomial columns.
pub open spec fn num_bp(v: int) -> int {
    42 * v + 2
}

/// Number of integer columns.
pub open spec fn num_int(v: int) -> int {
    3 * v + 3 + NUM_LEX_LIMBS
}

/// Payload cell `p` of network state `g` is read `a` rows further down by some
/// constraint: at a distance of one by the ordering constraints of the sorted
/// and the original trace, and at the strides of the layers beside the state.
pub open spec fn read_below(v: int, g: int, p: int, a: int) -> bool {
    ||| 0 <= g < 2 * v - 1 && a == benes::stride_of(v, g)
    ||| 0 < g <= 2 * v - 1 && a == benes::stride_of(v, g - 1)
    ||| g == 0 && a == 1 && p != PL_STACK_DEPTH && p != PL_STACK_DEPTH + 1
    ||| g == 2 * v - 1 && a == 1 && (p == PL_TIME || p == PL_TIME + 1)
}

/// The distances at which column `c` is read, in increasing order.
pub open spec fn column_shifts(v: int, c: int) -> Seq<(usize, usize)> {
    let g = c / 21;
    let p = c % 21;
    let c = c as usize;
    if g == 0 {
        let far = (c, benes::stride_of(v, 0) as usize);
        if p != PL_STACK_DEPTH && p != PL_STACK_DEPTH + 1 {
            seq![(c, 1usize), far]
        } else {
            seq![far]
        }
    } else if g < 2 * v - 1 {
        let a = benes::stride_of(v, g - 1);
        let b = benes::stride_of(v, g);
        if a < b {
            seq![(c, a as usize), (c, b as usize)]
        } else {
            seq![(c, b as usize), (c, a as usize)]
        }
    } else {
        let far = (c, benes::stride_of(v, 2 * v - 2) as usize);
        if p == PL_TIME || p == PL_TIME + 1 {
            seq![(c, 1usize), far]
        } else {
            seq![far]
        }
    }
}

/// The shifted columns of the first `n` columns, as pairs of a column and a
/// distance.
pub open spec fn shifts_upto(v: int, n: int) -> Seq<(usize, usize)>
    decreases n,
{
    if n <= 0 {
        Seq::empty()
    } else {
        shifts_upto(v, n - 1) + column_shifts(v, n - 1)
    }
}

/// The shifted columns of the constraint system, in the order in which they
/// stand in a down row.
pub open spec fn shift_list(v: int) -> Seq<(usize, usize)> {
    shifts_upto(v, 42 * v)
}

/// The lexicographic order of pairs.
pub open spec fn pair_less(a: (usize, usize), b: (usize, usize)) -> bool {
    a.0 < b.0 || (a.0 == b.0 && a.1 < b.1)
}

/// Where a down row holds column `c` shifted by `a`.
pub open spec fn down_position(v: int, c: int, a: int) -> int {
    shift_list(v).index_of((c as usize, a as usize))
}

/// The strides of a network on `2^v` wires.
proof fn lemma_strides(v: int, l: int)
    requires
        supported(v),
        0 <= l < 2 * v - 1,
    ensures
        1 <= benes::stride_of(v, l) <= 0x8000,
        l < 2 * v - 2 ==> benes::stride_of(v, l) != benes::stride_of(v, l + 1),
        (l == 0 || l == 2 * v - 2) ==> benes::stride_of(v, l) >= 2,
{
    lemma2_to64();
    let k = benes::stride_bit_of(v, l);
    lemma_pow2_pos(k as nat);
    if k < 15 {
        lemma_pow2_strictly_increases(k as nat, 15);
    }
    if k > 1 {
        lemma_pow2_strictly_increases(1, k as nat);
    }
    if l < 2 * v - 2 {
        let m = benes::stride_bit_of(v, l + 1);
        if k < m {
            lemma_pow2_strictly_increases(k as nat, m as nat);
        } else {
            lemma_pow2_strictly_increases(m as nat, k as nat);
        }
    }
}

proof fn lemma_column_shifts(v: int, c: int)
    requires
        supported(v),
        0 <= c < 42 * v,
    ensures
        ({
            let s = column_shifts(v, c);
            let g = c / 21;
            let p = c % 21;
            &&& 1 <= s.len() <= 2
            &&& s.len() == 2 ==> pair_less(s[0], s[1])
            &&& forall|i: int| 0 <= i < s.len() ==> (#[trigger] s[i]).0 == c
            &&& forall|a: int| 0 <= a <= usize::MAX ==> (#[trigger] s.contains(
                (c as usize, a as usize),
            ) <==> read_below(v, g, p, a))
        }),
{
    let s = column_shifts(v, c);
    let g = c / 21;
    let p = c % 21;
    assert(0 <= g <= 2 * v - 1);
    lemma_strides(v, 0);
    lemma_strides(v, 2 * v - 2);
    if g > 0 {
        lemma_strides(v, g - 1);
    }
    if g < 2 * v - 1 {
        lemma_strides(v, g);
    }
    assert forall|a: int| 0 <= a <= usize::MAX implies (#[trigger] s.contains(
        (c as usize, a as usize),
    ) <==> read_below(v, g, p, a)) by {
        let x = (c as usize, a as usize);
        if s.contains(x) {
            assert(s[0] == x || s[1] == x);
        }
        if read_below(v, g, p, a) {
            assert(s[0] == x || (s.len() == 2 && s[1] == x));
        }
    }
}

/// The shift list is strictly sorted.
pub proof fn shift_list_is_sorted(v: int, n: int)
    requires
        supported(v),
        0 <= n <= 42 * v,
    ensures
        forall|i: int, j: int|
            0 <= i < j < shifts_upto(v, n).len() ==> pair_less(
                #[trigger] shifts_upto(v, n)[i],
                #[trigger] shifts_upto(v, n)[j],
            ),
        forall|i: int| 0 <= i < shifts_upto(v, n).len() ==> (#[trigger] shifts_upto(v, n)[i]).0 < n,
        shifts_upto(v, n).len() <= 2 * n,
    decreases n,
{
    if n > 0 {
        shift_list_is_sorted(v, n - 1);
        lemma_column_shifts(v, n - 1);
    }
}

/// The shift list holds exactly the shifted columns that constraints read.
pub proof fn shift_list_is_complete(v: int, n: int, c: int, a: int)
    requires
        supported(v),
        0 <= n <= 42 * v,
        0 <= c <= usize::MAX,
        0 <= a <= usize::MAX,
    ensures
        shifts_upto(v, n).contains((c as usize, a as usize)) <==> c < n && read_below(
            v,
            c / 21,
            c % 21,
            a,
        ),
    decreases n,
{
    let x = (c as usize, a as usize);
    if n > 0 {
        shift_list_is_complete(v, n - 1, c, a);
        lemma_column_shifts(v, n - 1);
        let s = shifts_upto(v, n - 1);
        let t = column_shifts(v, n - 1);
        let u = shifts_upto(v, n);
        assert(u.contains(x) <==> s.contains(x) || t.contains(x)) by {
            if u.contains(x) {
                let i = choose|i: int| 0 <= i < u.len() && u[i] == x;
                if i < s.len() {
                    assert(s[i] == x);
                } else {
                    assert(t[i - s.len()] == x);
                }
            }
            if s.contains(x) {
                let i = choose|i: int| 0 <= i < s.len() && s[i] == x;
                assert(u[i] == x);
            }
            if t.contains(x) {
                let i = choose|i: int| 0 <= i < t.len() && t[i] == x;
                assert(u[i + s.len()] == x);
            }
        }
        if c != n - 1 {
            assert(!t.contains(x));
        }
    }
}

/// The position of a declared shift is where the shift list holds it.
pub proof fn lemma_down_position(v: int, g: int, p: int, a: int)
    requires
        supported(v),
        0 <= g < 2 * v,
        0 <= p < PAYLOAD_CELLS,
        0 <= a <= usize::MAX,
        read_below(v, g, p, a),
    ensures
        0 <= col(g, p) < 42 * v,
        0 <= down_position(v, col(g, p), a) < shift_list(v).len(),
        shift_list(v)[down_position(v, col(g, p), a)] == (col(g, p) as usize, a as usize),
{
    let c = col(g, p);
    assert(c / 21 == g && c % 21 == p);
    shift_list_is_complete(v, 42 * v, c, a);
}

proof fn lemma_payload_cells(n: int)
    ensures
        n * PAYLOAD_CELLS == 21 * n,
{
    assert(n * PAYLOAD_CELLS == 21 * n) by (nonlinear_arith)
        requires
            PAYLOAD_CELLS == 21,
    ;
}

/// The columns of the constraint system on `2^num_vars` rows.
#[derive(Clone, Debug)]
pub struct NetLayout {
    /// Exponent of the row count.
    pub num_vars: usize,
    /// Number of network layers.
    pub num_layers: usize,
    /// Number of network states.
    pub num_states: usize,
    /// Number of binary-polynomial columns.
    pub num_bp_cols: usize,
    /// Number of integer columns.
    pub num_int_cols: usize,
    /// Number of leading integer columns that are public.
    pub num_public_int_cols: usize,
    /// Binary column of the sorted trace's slack.
    pub bp_slack_sorted: usize,
    /// Binary column of the original trace's slack.
    pub bp_slack_original: usize,
    /// Integer column that tells the first row.
    pub int_is_first: usize,
    /// First of the integer columns that tell rows with a clear index bit.
    pub int_upper: usize,
    /// First of the selector columns of the sorted trace.
    pub int_s: usize,
    /// Integer column of the product of address equality and instruction.
    pub int_w: usize,
    /// Integer column that selects the high time limb.
    pub int_time_hi_sel: usize,
    /// Integer column that selects the low time limb.
    pub int_time_lo_sel: usize,
    /// First of the switch bit columns.
    pub int_switch: usize,
    /// The shifted columns, as pairs of a column and a distance, in the order
    /// of a down row.
    pub shifts: Vec<(usize, usize)>,
}

impl NetLayout {
    /// The layout numbers the columns of a system on `2^v` rows.
    pub open spec fn lays_out(&self, v: int) -> bool {
        &&& supported(v)
        &&& self.num_vars == v
        &&& self.num_layers == 2 * v - 1
        &&& self.num_states == 2 * v
        &&& self.num_bp_cols == num_bp(v)
        &&& self.num_int_cols == num_int(v)
        &&& self.num_public_int_cols == 1 + v
        &&& self.bp_slack_sorted == slack_sorted(v)
        &&& self.bp_slack_original == slack_original(v)
        &&& self.int_is_first == 0
        &&& self.int_upper == upper_col(0)
        &&& self.int_s == selector_col(v, 0)
        &&& self.int_w == helper_col(v)
        &&& self.int_time_hi_sel == time_hi_col(v)
        &&& self.int_time_lo_sel == time_lo_col(v)
        &&& self.int_switch == switch_col(v, 0)
        &&& self.shifts@ == shift_list(v)
    }

    /// The layout of a system on `2^num_vars` rows.
    pub fn new(num_vars: usize) -> (layout: NetLayout)
        requires
            supported(num_vars as int),
        ensures
            layout.lays_out(num_vars as int),
    {
        let num_layers: usize = benes::num_layers(num_vars);
        let num_states: usize = num_layers + 1;
        proof {
            lemma_payload_cells(num_states as int);
        }
        let payload_cols: usize = num_states * PAYLOAD_CELLS;
        let int_upper: usize = 1;
        let int_s: usize = int_upper + num_vars;
        let int_w: usize = int_s + NUM_LEX_LIMBS;
        let int_time_hi_sel: usize = int_w + 1;
        let int_time_lo_sel: usize = int_time_hi_sel + 1;
        let int_switch: usize = int_time_lo_sel + 1;
        NetLayout {
            num_vars,
            num_layers,
            num_states,
            num_bp_cols: payload_cols + 2,
            num_int_cols: int_switch + num_layers,
            num_public_int_cols: 1 + num_vars,
            bp_slack_sorted: payload_cols,
            bp_slack_original: payload_cols + 1,
            int_is_first: 0,
            int_upper,
            int_s,
            int_w,
            int_time_hi_sel,
            int_time_lo_sel,
            int_switch,
            shifts: build_shifts(num_vars),
        }
    }

    /// The binary column of payload cell `payload` of network state `state`.
    pub fn state_col(&self, state: usize, payload: usize) -> (c: usize)
        requires
            self.lays_out(self.num_vars as int),
            state < self.num_states,
            payload < PAYLOAD_CELLS,
        ensures
            c == col(state as int, payload as int),
            c == 21 * state + payload,
            c < self.num_bp_cols,
    {
        proof {
            lemma_payload_cells(state as int);
        }
        state * PAYLOAD_CELLS + payload
    }

    /// The network state that holds the original trace.
    pub fn original_state(&self) -> (state: usize)
        requires
            self.lays_out(self.num_vars as int),
        ensures
            state == 2 * self.num_vars - 1,
    {
        self.num_states - 1
    }

    /// The distance between the rows of a switch of layer `layer`.
    pub fn stride(&self, layer: usize) -> (stride: usize)
        requires
            self.lays_out(self.num_vars as int),
            layer < self.num_layers,
        ensures
            stride == benes::stride_of(self.num_vars as int, layer as int),
            stride == pow2(
                (if layer < self.num_vars {
                    self.num_vars - 1 - layer
                } else {
                    layer - self.num_vars + 1
                }) as nat,
            ),
    {
        benes::power_of_two(benes::stride_bit(self.num_vars, layer))
    }

    /// The position in a down row of column `c` shifted by `amount`, which
    /// some constraint reads.
    pub fn down_idx(&self, c: usize, amount: usize) -> (index: usize)
        requires
            self.lays_out(self.num_vars as int),
            shift_list(self.num_vars as int).contains((c, amount)),
        ensures
            index == down_position(self.num_vars as int, c as int, amount as int),
            index < self.shifts@.len(),
            self.shifts@[index as int] == (c, amount),
    {
        let ghost v = self.num_vars as int;
        let ghost list = shift_list(v);
        let ghost at = down_position(v, c as int, amount as int);
        let mut low: usize = 0;
        let mut high: usize = self.shifts.len();
        proof {
            shift_list_is_sorted(v, 42 * v);
            assert(list[at] == (c, amount) && 0 <= at < list.len());
        }
        while low + 1 < high
            invariant
                low <= at < high <= list.len(),
                list == self.shifts@,
                list.len() <= 0x1000,
                list[at] == (c, amount),
                forall|i: int, j: int|
                    0 <= i < j < list.len() ==> pair_less(#[trigger] list[i], #[trigger] list[j]),
            decreases high - low,
        {
            let middle: usize = low + (high - low) / 2;
            let pair = self.shifts[middle];
            if pair.0 < c || (pair.0 == c && pair.1 <= amount) {
                proof {
                    if at < middle {
                        assert(pair_less(list[at], list[middle as int]));
                    }
                }
                low = middle;
            } else {
                proof {
                    if middle < at {
                        assert(pair_less(list[middle as int], list[at]));
                    }
                }
                high = middle;
            }
        }
        low
    }
}

/// All shifted columns, in the order of a down row.
fn build_shifts(num_vars: usize) -> (shifts: Vec<(usize, usize)>)
    requires
        supported(num_vars as int),
    ensures
        shifts@ == shift_list(num_vars as int),
{
    let ghost v = num_vars as int;
    let mut shifts: Vec<(usize, usize)> = Vec::new();
    let last: usize = 2 * num_vars - 1;
    proof {
        lemma_payload_cells(2 * v);
    }
    let columns: usize = 2 * num_vars * PAYLOAD_CELLS;
    let mut c: usize = 0;
    while c < columns
        invariant
            supported(num_vars as int),
            v == num_vars,
            last == 2 * v - 1,
            columns == 42 * v,
            c <= columns,
            shifts@ == shifts_upto(v, c as int),
        decreases columns - c,
    {
        let state: usize = c / PAYLOAD_CELLS;
        let payload: usize = c % PAYLOAD_CELLS;
        let ghost before = shifts@;
        if state == 0 {
            if payload != PL_STACK_DEPTH && payload != PL_STACK_DEPTH + 1 {
                shifts.push((c, 1));
            }
            shifts.push((c, benes::power_of_two(benes::stride_bit(num_vars, 0))));
        } else if state < last {
            let a: usize = benes::power_of_two(benes::stride_bit(num_vars, state - 1));
            let b: usize = benes::power_of_two(benes::stride_bit(num_vars, state));
            if a < b {
                shifts.push((c, a));
                shifts.push((c, b));
            } else {
                shifts.push((c, b));
                shifts.push((c, a));
            }
        } else {
            if payload == PL_TIME || payload == PL_TIME + 1 {
                shifts.push((c, 1));
            }
            shifts.push((c, benes::power_of_two(benes::stride_bit(num_vars, last - 1))));
        }
        assert(shifts@ =~= before + column_shifts(v, c as int));
        c = c + 1;
    }
    shifts
}

} // verus!
