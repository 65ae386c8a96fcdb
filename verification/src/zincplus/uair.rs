//! The memory-consistency constraint system.
//!
//! Its constraints speak of one row of a trace and of the rows that its shifts
//! reach. They demand that the sorted trace is consistent, that time increases
//! along the original trace from zero, and that each layer of the switching
//! network swaps or keeps its pairs of rows, so that the two traces hold the
//! same records.

use crate::zincplus::benes;
use crate::zincplus::expr;
use crate::zincplus::expr::{Constraint, Expr, Row};
use crate::zincplus::layout;
use crate::zincplus::layout::{
    NetLayout, NUM_ADDR_LIMBS, NUM_LEX_LIMBS, NUM_VALUE_LIMBS, PAYLOAD_CELLS, PL_ADDR, PL_INSTR,
    PL_TIME, PL_VALUE,
};
use vstd::prelude::*;

verus! {

// ---------------------------------------------------------------------------
// What the constraints demand of the cells of a row.
// ---------------------------------------------------------------------------

/// The limb of payload cell `p` of network state `g` in this row.
pub open spec fn here(row: Row, g: int, p: int) -> int {
    row.up[layout::col(g, p)] as int
}

/// The limb of payload cell `p` of network state `g`, `a` rows further down.
pub open spec fn below(v: int, row: Row, g: int, p: int, a: int) -> int {
    row.down[layout::down_position(v, layout::col(g, p), a)] as int
}

pub open spec fn selector(v: int, row: Row, j: int) -> int {
    row.int[layout::selector_col(v, j)] as int
}

pub open spec fn helper(v: int, row: Row) -> int {
    row.int[layout::helper_col(v)] as int
}

/// Selector `k` is one and the other selectors are zero.
pub open spec fn selects(v: int, row: Row, k: int) -> bool {
    forall|j: int|
        0 <= j < NUM_LEX_LIMBS ==> #[trigger] selector(v, row, j) == if j == k {
            1int
        } else {
            0
        }
}

/// Address and time increase from this row of the sorted trace to the next, and
/// the selectors, the slack and the helper say how: limb `k` is the first to
/// differ, it grows by one more than the slack, and the helper is minus one
/// exactly where the next access is a read of the same address.
pub open spec fn key_step(v: int, row: Row, k: int) -> bool {
    let write_next = below(v, row, 0, PL_INSTR as int, 1) == 1;
    &&& selects(v, row, k)
    &&& forall|j: int| 0 <= j < k ==> #[trigger] below(v, row, 0, j, 1) == here(row, 0, j)
    &&& below(v, row, 0, k, 1) == here(row, 0, k) + 1 + row.up[layout::slack_sorted(v)]
    &&& helper(v, row) == if k >= NUM_ADDR_LIMBS && !write_next {
        -1int
    } else {
        0
    }
}

/// The next access of the sorted trace agrees with this one, when limb `k` is
/// the first to differ: a new address is written, a read keeps the value.
pub open spec fn value_step(v: int, row: Row, k: int) -> bool {
    let write_next = below(v, row, 0, PL_INSTR as int, 1) == 1;
    &&& k < NUM_ADDR_LIMBS ==> write_next
    &&& k >= NUM_ADDR_LIMBS && !write_next ==> forall|j: int|
        PL_VALUE <= j < PL_VALUE + NUM_VALUE_LIMBS ==> #[trigger] below(v, row, 0, j, 1) == here(
            row,
            0,
            j,
        )
}

/// The sorted trace is consistent at this row: a first row writes, the next
/// row's instruction is a bit, address and time increase, and the next access
/// agrees with this one.
pub open spec fn sorted_ok(v: int, row: Row) -> bool {
    &&& row.int[0] == 0 || here(row, 0, PL_INSTR as int) == 1
    &&& below(v, row, 0, PL_INSTR as int, 1) == 0 || below(v, row, 0, PL_INSTR as int, 1) == 1
    &&& exists|k: int| 0 <= k < NUM_LEX_LIMBS && #[trigger] key_step(v, row, k) && value_step(v, row, k)
}

/// Time increases from this row of the original trace, which is network state
/// `2v - 1`, to the next: the selected time limb grows by one more than the
/// slack while the limb before it stays.
pub open spec fn time_step(v: int, row: Row) -> bool {
    let g = 2 * v - 1;
    let hi = here(row, g, PL_TIME as int);
    let lo = here(row, g, PL_TIME + 1);
    let next_hi = below(v, row, g, PL_TIME as int, 1);
    let next_lo = below(v, row, g, PL_TIME + 1, 1);
    let select_hi = row.int[layout::time_hi_col(v)];
    let select_lo = row.int[layout::time_lo_col(v)];
    let slack = row.up[layout::slack_original(v)];
    ||| select_hi == 1 && select_lo == 0 && next_hi == hi + 1 + slack
    ||| select_hi == 0 && select_lo == 1 && next_hi == hi && next_lo == lo + 1 + slack
}

/// The original trace is in order at this row: a first row has time zero, and
/// time increases.
pub open spec fn original_ok(v: int, row: Row) -> bool {
    let g = 2 * v - 1;
    &&& row.int[0] == 0 || (here(row, g, PL_TIME as int) == 0 && here(row, g, PL_TIME + 1) == 0)
    &&& time_step(v, row)
}

/// The cells of a pair of rows before and after layer `l`: swapped when the
/// switch is set, else kept.
pub open spec fn switched(v: int, row: Row, l: int, p: int, set: bool) -> bool {
    let a = benes::stride_of(v, l);
    if set {
        &&& here(row, l + 1, p) == below(v, row, l, p, a)
        &&& below(v, row, l + 1, p, a) == here(row, l, p)
    } else {
        &&& here(row, l + 1, p) == here(row, l, p)
        &&& below(v, row, l + 1, p, a) == below(v, row, l, p, a)
    }
}

/// Layer `l` of the network at this row: where the row is the upper one of its
/// pair, the switch is a bit and the pair is swapped or kept as it says.
pub open spec fn layer_ok(v: int, row: Row, l: int) -> bool {
    let switch = row.int[layout::switch_col(v, l)];
    let set = switch == 1;
    ||| row.int[layout::upper_col(benes::stride_bit_of(v, l))] == 0
    ||| {
        &&& switch == 0 || switch == 1
        &&& forall|p: int| 0 <= p < PAYLOAD_CELLS ==> #[trigger] switched(v, row, l, p, set)
    }
}

/// What the constraints of a system on `2^v` rows demand of the cells of a row.
pub open spec fn row_ok(v: int, row: Row) -> bool {
    &&& sorted_ok(v, row)
    &&& original_ok(v, row)
    &&& forall|l: int| 0 <= l < 2 * v - 1 ==> #[trigger] layer_ok(v, row, l)
}

// ---------------------------------------------------------------------------
// The polynomials that the constraints are made of.
// ---------------------------------------------------------------------------

/// The cell `p` of network state `g` in this row, at `x`.
pub open spec fn here_at(row: Row, g: int, p: int, x: int) -> int {
    expr::bits_at(here(row, g, p), x)
}

/// The cell `p` of network state `g`, `a` rows further down, at `x`.
pub open spec fn below_at(v: int, row: Row, g: int, p: int, a: int, x: int) -> int {
    expr::bits_at(below(v, row, g, p, a), x)
}

/// The difference between the next row's cell and this row's, at `x`.
pub open spec fn step_at(v: int, row: Row, g: int, p: int, x: int) -> int {
    below_at(v, row, g, p, 1, x) - here_at(row, g, p, x)
}

/// The sum of the first `n` selectors.
pub open spec fn selector_sum(v: int, row: Row, n: int) -> int
    decreases n,
{
    if n <= 0 {
        0
    } else {
        selector_sum(v, row, n - 1) + selector(v, row, n - 1)
    }
}

/// The sum over the first `n` limbs of the selector times the limb's step.
pub open spec fn increase_at(v: int, row: Row, n: int, x: int) -> int
    decreases n,
{
    if n <= 0 {
        0
    } else {
        increase_at(v, row, n - 1, x) + selector(v, row, n - 1) * step_at(v, row, 0, n - 1, x)
    }
}

/// One where the next access is to the same address.
pub open spec fn same_address(v: int, row: Row) -> int {
    selector(v, row, 8) + selector(v, row, 9)
}

/// The first access of the sorted trace is a write: `is_first * (instr - 1)`.
pub open spec fn first_access_at(row: Row, x: int) -> int {
    row.int[0] * (here_at(row, 0, 20, x) - 1)
}

/// The next instruction is a bit: `instr' * (instr' - 1)`.
pub open spec fn instruction_bit_at(v: int, row: Row, x: int) -> int {
    below_at(v, row, 0, 20, 1, x) * (below_at(v, row, 0, 20, 1, x) - 1)
}

/// Selector `j` is a bit: `s_j * (s_j - 1)`.
pub open spec fn selector_bit_at(v: int, row: Row, j: int, x: int) -> int {
    selector(v, row, j) * (selector(v, row, j) - 1)
}

/// One selector is one: `s_0 + .. + s_9 - 1`.
pub open spec fn one_selector_at(v: int, row: Row, x: int) -> int {
    selector_sum(v, row, 10) - 1
}

/// Limb `j` stays before the selected one: `(1 - (s_0 + .. + s_j)) * d_j`.
pub open spec fn equal_prefix_at(v: int, row: Row, j: int, x: int) -> int {
    (1 - selector_sum(v, row, j + 1)) * step_at(v, row, 0, j, x)
}

/// The selected limb grows: the sum of `s_j * d_j`, less one and the slack.
pub open spec fn key_increase_at(v: int, row: Row, x: int) -> int {
    increase_at(v, row, 10, x) - 1 - expr::bits_at(row.up[layout::slack_sorted(v)] as int, x)
}

/// The helper: `w - (s_8 + s_9) * (instr' - 1)`.
pub open spec fn helper_at(v: int, row: Row, x: int) -> int {
    helper(v, row) - same_address(v, row) * (below_at(v, row, 0, 20, 1, x) - 1)
}

/// A read keeps value limb `j`: `w * (value_j' - value_j)`.
pub open spec fn read_value_at(v: int, row: Row, j: int, x: int) -> int {
    helper(v, row) * step_at(v, row, 0, 12 + j, x)
}

/// A new address is written: `(1 - (s_8 + s_9)) * (instr' - 1)`.
pub open spec fn new_address_at(v: int, row: Row, x: int) -> int {
    (1 - same_address(v, row)) * (below_at(v, row, 0, 20, 1, x) - 1)
}

/// The first time is zero: `is_first * time` for the limb in cell `p`.
pub open spec fn first_time_at(v: int, row: Row, p: int, x: int) -> int {
    row.int[0] * here_at(row, 2 * v - 1, p, x)
}

/// The time selector in column `c` is a bit.
pub open spec fn time_selector_bit_at(row: Row, c: int, x: int) -> int {
    row.int[c] * (row.int[c] - 1)
}

/// One time selector is one: `o_hi + o_lo - 1`.
pub open spec fn one_time_selector_at(v: int, row: Row, x: int) -> int {
    row.int[layout::time_hi_col(v)] + row.int[layout::time_lo_col(v)] - 1
}

/// The high limb stays where the low one is selected: `(1 - o_hi) * d_hi`.
pub open spec fn equal_hi_at(v: int, row: Row, x: int) -> int {
    (1 - row.int[layout::time_hi_col(v)]) * step_at(v, row, 2 * v - 1, 8, x)
}

/// Time grows: `o_hi * d_hi + o_lo * d_lo`, less one and the slack.
pub open spec fn time_increase_at(v: int, row: Row, x: int) -> int {
    row.int[layout::time_hi_col(v)] * step_at(v, row, 2 * v - 1, 8, x)
        + row.int[layout::time_lo_col(v)] * step_at(v, row, 2 * v - 1, 9, x) - 1 - expr::bits_at(
        row.up[layout::slack_original(v)] as int,
        x,
    )
}

/// One where this row is the upper one of its pair in layer `l`.
pub open spec fn mask(v: int, row: Row, l: int) -> int {
    row.int[layout::upper_col(benes::stride_bit_of(v, l))] as int
}

/// The switch of layer `l`.
pub open spec fn switch(v: int, row: Row, l: int) -> int {
    row.int[layout::switch_col(v, l)] as int
}

/// The switch of an upper row is a bit: `upper * (s * (s - 1))`.
pub open spec fn switch_bit_at(v: int, row: Row, l: int, x: int) -> int {
    mask(v, row, l) * (switch(v, row, l) * (switch(v, row, l) - 1))
}

/// The switch times the difference of the two rows of a pair.
pub open spec fn difference_at(v: int, row: Row, l: int, p: int, x: int) -> int {
    switch(v, row, l) * (below_at(v, row, l, p, benes::stride_of(v, l), x) - here_at(row, l, p, x))
}

/// The upper row after the layer: `upper * (out_1 - in_1 - s * (in_2 - in_1))`.
pub open spec fn upper_swap_at(v: int, row: Row, l: int, p: int, x: int) -> int {
    mask(v, row, l) * (here_at(row, l + 1, p, x) - here_at(row, l, p, x) - difference_at(
        v,
        row,
        l,
        p,
        x,
    ))
}

/// The lower row after the layer: `upper * (out_2 - in_2 + s * (in_2 - in_1))`.
pub open spec fn lower_swap_at(v: int, row: Row, l: int, p: int, x: int) -> int {
    mask(v, row, l) * (below_at(v, row, l + 1, p, benes::stride_of(v, l), x) - below_at(
        v,
        row,
        l,
        p,
        benes::stride_of(v, l),
        x,
    ) + difference_at(v, row, l, p, x))
}

/// The polynomials that the constraints are made of.
pub ghost enum Polynomial {
    FirstAccess,
    InstructionBit,
    SelectorBit(int),
    OneSelector,
    EqualPrefix(int),
    KeyIncrease,
    Helper,
    ReadValue(int),
    NewAddress,
    FirstTime(int),
    TimeHiBit,
    TimeLoBit,
    OneTimeSelector,
    EqualHi,
    TimeIncrease,
    SwitchBit(int),
    UpperSwap(int, int),
    LowerSwap(int, int),
}

/// The value of a polynomial at `x`, on the cells of a row.
pub open spec fn value_at(p: Polynomial, v: int, row: Row, x: int) -> int {
    match p {
        Polynomial::FirstAccess => first_access_at(row, x),
        Polynomial::InstructionBit => instruction_bit_at(v, row, x),
        Polynomial::SelectorBit(j) => selector_bit_at(v, row, j, x),
        Polynomial::OneSelector => one_selector_at(v, row, x),
        Polynomial::EqualPrefix(j) => equal_prefix_at(v, row, j, x),
        Polynomial::KeyIncrease => key_increase_at(v, row, x),
        Polynomial::Helper => helper_at(v, row, x),
        Polynomial::ReadValue(j) => read_value_at(v, row, j, x),
        Polynomial::NewAddress => new_address_at(v, row, x),
        Polynomial::FirstTime(c) => first_time_at(v, row, c, x),
        Polynomial::TimeHiBit => time_selector_bit_at(row, layout::time_hi_col(v), x),
        Polynomial::TimeLoBit => time_selector_bit_at(row, layout::time_lo_col(v), x),
        Polynomial::OneTimeSelector => one_time_selector_at(v, row, x),
        Polynomial::EqualHi => equal_hi_at(v, row, x),
        Polynomial::TimeIncrease => time_increase_at(v, row, x),
        Polynomial::SwitchBit(l) => switch_bit_at(v, row, l, x),
        Polynomial::UpperSwap(l, c) => upper_swap_at(v, row, l, c, x),
        Polynomial::LowerSwap(l, c) => lower_swap_at(v, row, l, c, x),
    }
}

/// The polynomial has to lie in the ideal of `X - 2` only; the others vanish.
pub open spec fn in_ideal(p: Polynomial) -> bool {
    p is KeyIncrease || p is TimeIncrease
}

/// The degree of a polynomial in the cells: three in the network, where a mask
/// and a switch multiply a difference, and at most two elsewhere. The helper
/// keeps the polynomials of the values that reads return at two.
pub open spec fn degree_of(p: Polynomial) -> nat {
    if p is SwitchBit || p is UpperSwap || p is LowerSwap {
        3
    } else if p is OneSelector || p is OneTimeSelector {
        1
    } else {
        2
    }
}

/// The polynomials on the sorted trace, in the order of the constraints.
pub open spec fn sorted_polynomials() -> Seq<Polynomial> {
    seq![Polynomial::FirstAccess, Polynomial::InstructionBit] + Seq::new(
        10,
        |j: int| Polynomial::SelectorBit(j),
    ) + seq![Polynomial::OneSelector] + Seq::new(10, |j: int| Polynomial::EqualPrefix(j)) + seq![
        Polynomial::KeyIncrease,
        Polynomial::Helper,
    ] + Seq::new(8, |j: int| Polynomial::ReadValue(j)) + seq![Polynomial::NewAddress]
}

/// The polynomials on the original trace, in the order of the constraints.
pub open spec fn original_polynomials() -> Seq<Polynomial> {
    seq![
        Polynomial::FirstTime(8),
        Polynomial::FirstTime(9),
        Polynomial::TimeHiBit,
        Polynomial::TimeLoBit,
        Polynomial::OneTimeSelector,
        Polynomial::EqualHi,
        Polynomial::TimeIncrease,
    ]
}

/// The polynomials on the first `n` cells that layer `l` swaps or keeps.
pub open spec fn swap_polynomials(l: int, n: int) -> Seq<Polynomial> {
    Seq::new(
        (2 * n) as nat,
        |i: int|
            if i % 2 == 0 {
                Polynomial::UpperSwap(l, i / 2)
            } else {
                Polynomial::LowerSwap(l, i / 2)
            },
    )
}

/// The polynomials on the first `n` layers of the network.
pub open spec fn network_polynomials(n: int) -> Seq<Polynomial>
    decreases n,
{
    if n <= 0 {
        Seq::empty()
    } else {
        network_polynomials(n - 1).push(Polynomial::SwitchBit(n - 1)) + swap_polynomials(n - 1, 21)
    }
}

/// The polynomials of a system on `2^v` rows, in the order of the constraints.
pub open spec fn polynomials(v: int) -> Seq<Polynomial> {
    sorted_polynomials() + original_polynomials() + network_polynomials(2 * v - 1)
}

/// An expression is a polynomial of a system on `2^v` rows.
pub open spec fn writes(e: Expr, v: int, p: Polynomial) -> bool {
    &&& forall|row: Row, x: int| #[trigger] expr::eval(e, row, x) == value_at(p, v, row, x)
    &&& expr::degree(e) == degree_of(p)
}

/// A constraint demands what it should of a polynomial.
pub open spec fn constrains(c: Constraint, v: int, p: Polynomial) -> bool {
    match c {
        Constraint::Zero(e) => !in_ideal(p) && writes(e, v, p),
        Constraint::InBaseTwoIdeal(e) => in_ideal(p) && writes(e, v, p),
    }
}

/// The constraints are those on the listed polynomials, one for one.
pub open spec fn emits(cs: Seq<Constraint>, v: int, ps: Seq<Polynomial>) -> bool {
    &&& cs.len() == ps.len()
    &&& forall|i: int| 0 <= i < cs.len() ==> constrains(#[trigger] cs[i], v, ps[i])
}

/// The cells of a row meet the demand on a polynomial.
spec fn vanishes(p: Polynomial, v: int, row: Row) -> bool {
    if in_ideal(p) {
        value_at(p, v, row, 2) == 0
    } else {
        forall|x: int| #[trigger] value_at(p, v, row, x) == 0
    }
}

/// The cells of a row meet the demands on all listed polynomials.
spec fn all_vanish(ps: Seq<Polynomial>, v: int, row: Row) -> bool {
    forall|i: int| 0 <= i < ps.len() ==> vanishes(#[trigger] ps[i], v, row)
}

spec fn selectors_are_bits(v: int, row: Row, n: int) -> bool
    decreases n,
{
    n <= 0 || (selectors_are_bits(v, row, n - 1) && forall|x: int| #[trigger]
        selector_bit_at(v, row, n - 1, x) == 0)
}

spec fn prefixes_are_equal(v: int, row: Row, n: int) -> bool
    decreases n,
{
    n <= 0 || (prefixes_are_equal(v, row, n - 1) && forall|x: int| #[trigger]
        equal_prefix_at(v, row, n - 1, x) == 0)
}

spec fn reads_return_values(v: int, row: Row, n: int) -> bool
    decreases n,
{
    n <= 0 || (reads_return_values(v, row, n - 1) && forall|x: int| #[trigger]
        read_value_at(v, row, n - 1, x) == 0)
}

spec fn cells_are_swapped(v: int, row: Row, l: int, n: int) -> bool
    decreases n,
{
    n <= 0 || (cells_are_swapped(v, row, l, n - 1) && (forall|x: int| #[trigger]
        upper_swap_at(v, row, l, n - 1, x) == 0) && (forall|x: int| #[trigger]
        lower_swap_at(v, row, l, n - 1, x) == 0))
}

spec fn layers_are_switched(v: int, row: Row, n: int) -> bool
    decreases n,
{
    n <= 0 || (layers_are_switched(v, row, n - 1) && (forall|x: int| #[trigger]
        switch_bit_at(v, row, n - 1, x) == 0) && cells_are_swapped(v, row, n - 1, 21))
}

// ---------------------------------------------------------------------------
// Emitting the constraints.
// ---------------------------------------------------------------------------

/// The cell of this row for payload cell `payload` of network state `state`.
fn cell(net: &NetLayout, state: usize, payload: usize) -> (e: Expr)
    requires
        net.lays_out(net.num_vars as int),
        state < net.num_states,
        payload < PAYLOAD_CELLS,
    ensures
        forall|row: Row, x: int|
            #![trigger expr::eval(e, row, x)]
            expr::eval(e, row, x) == here_at(row, state as int, payload as int, x),
        expr::degree(e) == 1,
{
    expr::up_binary(net.state_col(state, payload))
}

/// The cell `amount` rows further down.
fn cell_below(net: &NetLayout, state: usize, payload: usize, amount: usize) -> (e: Expr)
    requires
        net.lays_out(net.num_vars as int),
        state < net.num_states,
        payload < PAYLOAD_CELLS,
        layout::read_below(net.num_vars as int, state as int, payload as int, amount as int),
    ensures
        forall|row: Row, x: int|
            #![trigger expr::eval(e, row, x)]
            expr::eval(e, row, x) == below_at(net.num_vars as int, row, state as int, payload as int, amount as int, x),
        expr::degree(e) == 1,
{
    proof {
        layout::lemma_down_position(
            net.num_vars as int,
            state as int,
            payload as int,
            amount as int,
        );
    }
    expr::down_binary(net.down_idx(net.state_col(state, payload), amount))
}

/// The difference between the next row's cell and this row's.
fn step(net: &NetLayout, state: usize, payload: usize) -> (e: Expr)
    requires
        net.lays_out(net.num_vars as int),
        state < net.num_states,
        payload < PAYLOAD_CELLS,
        layout::read_below(net.num_vars as int, state as int, payload as int, 1),
    ensures
        forall|row: Row, x: int|
            #![trigger expr::eval(e, row, x)]
            expr::eval(e, row, x) == step_at(net.num_vars as int, row, state as int, payload as int, x),
        expr::degree(e) == 1,
{
    expr::minus(cell_below(net, state, payload, 1), cell(net, state, payload))
}

/// Selector `j`.
fn selector_expr(net: &NetLayout, j: usize) -> (e: Expr)
    requires
        net.lays_out(net.num_vars as int),
        j < NUM_LEX_LIMBS,
    ensures
        forall|row: Row, x: int|
            #![trigger expr::eval(e, row, x)]
            expr::eval(e, row, x) == selector(net.num_vars as int, row, j as int),
        expr::degree(e) == 1,
{
    expr::up_int(net.int_s + j)
}

/// The next row's instruction, less one.
fn next_instruction_minus_one(net: &NetLayout) -> (e: Expr)
    requires
        net.lays_out(net.num_vars as int),
    ensures
        forall|row: Row, x: int|
            #![trigger expr::eval(e, row, x)]
            expr::eval(e, row, x) == below_at(net.num_vars as int, row, 0, 20, 1, x) - 1,
        expr::degree(e) == 1,
{
    expr::minus(cell_below(net, 0, PL_INSTR, 1), expr::one())
}

/// One where the next access is to the same address.
fn same_address_expr(net: &NetLayout) -> (e: Expr)
    requires
        net.lays_out(net.num_vars as int),
    ensures
        forall|row: Row, x: int|
            #![trigger expr::eval(e, row, x)]
            expr::eval(e, row, x) == same_address(net.num_vars as int, row),
        expr::degree(e) == 1,
{
    expr::plus(
        selector_expr(net, NUM_ADDR_LIMBS),
        selector_expr(net, NUM_ADDR_LIMBS + 1),
    )
}

/// The sum of the first `n` selectors.
fn selector_sum_expr(net: &NetLayout, n: usize) -> (e: Expr)
    requires
        net.lays_out(net.num_vars as int),
        1 <= n <= NUM_LEX_LIMBS,
    ensures
        forall|row: Row, x: int|
            #![trigger expr::eval(e, row, x)]
            expr::eval(e, row, x) == selector_sum(net.num_vars as int, row, n as int),
        expr::degree(e) == 1,
{
    let mut e = selector_expr(net, 0);
    let mut j: usize = 1;
    assert forall|row: Row, x: int|
        #![trigger expr::eval(e, row, x)]
        expr::eval(e, row, x) == selector_sum(net.num_vars as int, row, 1) by {
        reveal_with_fuel(selector_sum, 2);
    }
    while j < n
        invariant
            net.lays_out(net.num_vars as int),
            1 <= j <= n <= NUM_LEX_LIMBS,
            forall|row: Row, x: int|
                #![trigger expr::eval(e, row, x)]
                expr::eval(e, row, x) == selector_sum(net.num_vars as int, row, j as int),
            expr::degree(e) == 1,
        decreases n - j,
    {
        e = expr::plus(e, selector_expr(net, j));
        j = j + 1;
    }
    e
}

/// The sum over all limbs of the selector times the limb's step.
fn increase_expr(net: &NetLayout) -> (e: Expr)
    requires
        net.lays_out(net.num_vars as int),
    ensures
        forall|row: Row, x: int|
            #![trigger expr::eval(e, row, x)]
            expr::eval(e, row, x) == increase_at(net.num_vars as int, row, 10, x),
        expr::degree(e) == 2,
{
    let mut e = expr::times(selector_expr(net, 0), step(net, 0, PL_ADDR));
    let mut j: usize = 1;
    assert forall|row: Row, x: int|
        #![trigger expr::eval(e, row, x)]
        expr::eval(e, row, x) == increase_at(net.num_vars as int, row, 1, x) by {
        reveal_with_fuel(increase_at, 2);
    }
    while j < NUM_LEX_LIMBS
        invariant
            net.lays_out(net.num_vars as int),
            1 <= j <= NUM_LEX_LIMBS,
            forall|row: Row, x: int|
                #![trigger expr::eval(e, row, x)]
                expr::eval(e, row, x) == increase_at(net.num_vars as int, row, j as int, x),
            expr::degree(e) == 2,
        decreases NUM_LEX_LIMBS - j,
    {
        e = expr::plus(e, expr::times(selector_expr(net, j), step(net, 0, PL_ADDR + j)));
        j = j + 1;
    }
    e
}

/// The first access of the sorted trace is a write.
fn first_access(net: &NetLayout) -> (e: Expr)
    requires
        net.lays_out(net.num_vars as int),
    ensures
        writes(e, net.num_vars as int, Polynomial::FirstAccess),
{
    expr::times(
        expr::up_int(net.int_is_first),
        expr::minus(cell(net, 0, PL_INSTR), expr::one()),
    )
}

/// The next row's instruction is a bit.
fn instruction_bit(net: &NetLayout) -> (e: Expr)
    requires
        net.lays_out(net.num_vars as int),
    ensures
        writes(e, net.num_vars as int, Polynomial::InstructionBit),
{
    expr::times(cell_below(net, 0, PL_INSTR, 1), next_instruction_minus_one(net))
}

/// Selector `j` is a bit.
fn selector_bit(net: &NetLayout, j: usize) -> (e: Expr)
    requires
        net.lays_out(net.num_vars as int),
        j < NUM_LEX_LIMBS,
    ensures
        writes(e, net.num_vars as int, Polynomial::SelectorBit(j as int)),
{
    expr::times(selector_expr(net, j), expr::minus(selector_expr(net, j), expr::one()))
}

/// Exactly one selector is one.
fn one_selector(net: &NetLayout) -> (e: Expr)
    requires
        net.lays_out(net.num_vars as int),
    ensures
        writes(e, net.num_vars as int, Polynomial::OneSelector),
{
    expr::minus(selector_sum_expr(net, NUM_LEX_LIMBS), expr::one())
}

/// Limb `j` stays where it stands before the selected one.
fn equal_prefix(net: &NetLayout, j: usize) -> (e: Expr)
    requires
        net.lays_out(net.num_vars as int),
        j < NUM_LEX_LIMBS,
    ensures
        writes(e, net.num_vars as int, Polynomial::EqualPrefix(j as int)),
{
    expr::times(
        expr::minus(expr::one(), selector_sum_expr(net, j + 1)),
        step(net, 0, PL_ADDR + j),
    )
}

/// The selected limb grows by one more than the slack.
fn key_increase(net: &NetLayout) -> (e: Expr)
    requires
        net.lays_out(net.num_vars as int),
    ensures
        writes(e, net.num_vars as int, Polynomial::KeyIncrease),
{
    expr::minus(
        expr::minus(increase_expr(net), expr::one()),
        expr::up_binary(net.bp_slack_sorted),
    )
}

/// The helper is address equality times the next instruction less one.
fn helper_definition(net: &NetLayout) -> (e: Expr)
    requires
        net.lays_out(net.num_vars as int),
    ensures
        writes(e, net.num_vars as int, Polynomial::Helper),
{
    expr::minus(
        expr::up_int(net.int_w),
        expr::times(same_address_expr(net), next_instruction_minus_one(net)),
    )
}

/// A read at an unchanged address keeps value limb `j`.
fn read_value(net: &NetLayout, j: usize) -> (e: Expr)
    requires
        net.lays_out(net.num_vars as int),
        j < NUM_VALUE_LIMBS,
    ensures
        writes(e, net.num_vars as int, Polynomial::ReadValue(j as int)),
{
    expr::times(expr::up_int(net.int_w), step(net, 0, PL_VALUE + j))
}

/// The first access to a new address is a write.
fn new_address(net: &NetLayout) -> (e: Expr)
    requires
        net.lays_out(net.num_vars as int),
    ensures
        writes(e, net.num_vars as int, Polynomial::NewAddress),
{
    expr::times(
        expr::minus(expr::one(), same_address_expr(net)),
        next_instruction_minus_one(net),
    )
}

/// A time limb of the first access of the original trace is zero.
fn first_time(net: &NetLayout, payload: usize) -> (e: Expr)
    requires
        net.lays_out(net.num_vars as int),
        payload < PAYLOAD_CELLS,
    ensures
        writes(e, net.num_vars as int, Polynomial::FirstTime(payload as int)),
{
    expr::times(expr::up_int(net.int_is_first), cell(net, net.original_state(), payload))
}

/// A time selector is a bit.
fn time_selector_bit(net: &NetLayout, c: usize) -> (e: Expr)
    requires
        net.lays_out(net.num_vars as int),
    ensures
        c == net.int_time_hi_sel ==> writes(e, net.num_vars as int, Polynomial::TimeHiBit),
        c == net.int_time_lo_sel ==> writes(e, net.num_vars as int, Polynomial::TimeLoBit),
{
    expr::times(expr::up_int(c), expr::minus(expr::up_int(c), expr::one()))
}

/// Exactly one time selector is one.
fn one_time_selector(net: &NetLayout) -> (e: Expr)
    requires
        net.lays_out(net.num_vars as int),
    ensures
        writes(e, net.num_vars as int, Polynomial::OneTimeSelector),
{
    expr::minus(
        expr::plus(expr::up_int(net.int_time_hi_sel), expr::up_int(net.int_time_lo_sel)),
        expr::one(),
    )
}

/// The high time limb stays where the low one is selected.
fn equal_hi(net: &NetLayout) -> (e: Expr)
    requires
        net.lays_out(net.num_vars as int),
    ensures
        writes(e, net.num_vars as int, Polynomial::EqualHi),
{
    expr::times(
        expr::minus(expr::one(), expr::up_int(net.int_time_hi_sel)),
        step(net, net.original_state(), PL_TIME),
    )
}

/// The selected time limb grows by one more than the slack.
fn time_increase(net: &NetLayout) -> (e: Expr)
    requires
        net.lays_out(net.num_vars as int),
    ensures
        writes(e, net.num_vars as int, Polynomial::TimeIncrease),
{
    let g: usize = net.original_state();
    let hi = expr::times(expr::up_int(net.int_time_hi_sel), step(net, g, PL_TIME));
    let lo = expr::times(expr::up_int(net.int_time_lo_sel), step(net, g, PL_TIME + 1));
    expr::minus(
        expr::minus(expr::plus(hi, lo), expr::one()),
        expr::up_binary(net.bp_slack_original),
    )
}

/// One where this row is the upper one of its pair in layer `layer`.
fn mask_expr(net: &NetLayout, layer: usize) -> (e: Expr)
    requires
        net.lays_out(net.num_vars as int),
        layer < net.num_layers,
    ensures
        forall|row: Row, x: int|
            #![trigger expr::eval(e, row, x)]
            expr::eval(e, row, x) == mask(net.num_vars as int, row, layer as int),
        expr::degree(e) == 1,
{
    expr::up_int(net.int_upper + benes::stride_bit(net.num_vars, layer))
}

/// The switch bit of layer `layer`.
fn switch_expr(net: &NetLayout, layer: usize) -> (e: Expr)
    requires
        net.lays_out(net.num_vars as int),
        layer < net.num_layers,
    ensures
        forall|row: Row, x: int|
            #![trigger expr::eval(e, row, x)]
            expr::eval(e, row, x) == switch(net.num_vars as int, row, layer as int),
        expr::degree(e) == 1,
{
    expr::up_int(net.int_switch + layer)
}

/// The switch of an upper row is a bit.
fn switch_bit(net: &NetLayout, layer: usize) -> (e: Expr)
    requires
        net.lays_out(net.num_vars as int),
        layer < net.num_layers,
    ensures
        writes(e, net.num_vars as int, Polynomial::SwitchBit(layer as int)),
{
    expr::times(
        mask_expr(net, layer),
        expr::times(
            switch_expr(net, layer),
            expr::minus(switch_expr(net, layer), expr::one()),
        ),
    )
}

/// The switch times the difference of the two rows of the pair.
fn difference_expr(net: &NetLayout, layer: usize, payload: usize) -> (e: Expr)
    requires
        net.lays_out(net.num_vars as int),
        layer < net.num_layers,
        payload < PAYLOAD_CELLS,
    ensures
        forall|row: Row, x: int|
            #![trigger expr::eval(e, row, x)]
            expr::eval(e, row, x) == difference_at(net.num_vars as int, row, layer as int, payload as int, x),
        expr::degree(e) == 2,
{
    let below = cell_below(net, layer, payload, net.stride(layer));
    expr::times(switch_expr(net, layer), expr::minus(below, cell(net, layer, payload)))
}

/// The upper row of a pair after the layer.
fn upper_swap(net: &NetLayout, layer: usize, payload: usize) -> (e: Expr)
    requires
        net.lays_out(net.num_vars as int),
        layer < net.num_layers,
        payload < PAYLOAD_CELLS,
    ensures
        writes(e, net.num_vars as int, Polynomial::UpperSwap(layer as int, payload as int)),
{
    let change = expr::minus(cell(net, layer + 1, payload), cell(net, layer, payload));
    expr::times(
        mask_expr(net, layer),
        expr::minus(change, difference_expr(net, layer, payload)),
    )
}

/// The lower row of a pair after the layer.
fn lower_swap(net: &NetLayout, layer: usize, payload: usize) -> (e: Expr)
    requires
        net.lays_out(net.num_vars as int),
        layer < net.num_layers,
        payload < PAYLOAD_CELLS,
    ensures
        writes(e, net.num_vars as int, Polynomial::LowerSwap(layer as int, payload as int)),
{
    let stride: usize = net.stride(layer);
    let change = expr::minus(
        cell_below(net, layer + 1, payload, stride),
        cell_below(net, layer, payload, stride),
    );
    expr::times(mask_expr(net, layer), expr::plus(change, difference_expr(net, layer, payload)))
}

/// No constraint has a degree above three.
pub open spec fn low_degree(cs: Seq<Constraint>) -> bool {
    forall|i: int|
        0 <= i < cs.len() ==> match #[trigger] cs[i] {
            Constraint::Zero(e) => expr::degree(e) <= 3,
            Constraint::InBaseTwoIdeal(e) => expr::degree(e) <= 3,
        }
}

spec fn sorted_polynomials_vanish(v: int, row: Row) -> bool {
    &&& forall|x: int| #[trigger] first_access_at(row, x) == 0
    &&& forall|x: int| #[trigger] instruction_bit_at(v, row, x) == 0
    &&& selectors_are_bits(v, row, 10)
    &&& forall|x: int| #[trigger] one_selector_at(v, row, x) == 0
    &&& prefixes_are_equal(v, row, 10)
    &&& key_increase_at(v, row, 2) == 0
    &&& forall|x: int| #[trigger] helper_at(v, row, x) == 0
    &&& reads_return_values(v, row, 8)
    &&& forall|x: int| #[trigger] new_address_at(v, row, x) == 0
}

spec fn original_polynomials_vanish(v: int, row: Row) -> bool {
    &&& forall|x: int| #[trigger] first_time_at(v, row, 8, x) == 0
    &&& forall|x: int| #[trigger] first_time_at(v, row, 9, x) == 0
    &&& forall|x: int| #[trigger] time_selector_bit_at(row, layout::time_hi_col(v), x) == 0
    &&& forall|x: int| #[trigger] time_selector_bit_at(row, layout::time_lo_col(v), x) == 0
    &&& forall|x: int| #[trigger] one_time_selector_at(v, row, x) == 0
    &&& forall|x: int| #[trigger] equal_hi_at(v, row, x) == 0
    &&& time_increase_at(v, row, 2) == 0
}

/// Demand that an expression vanishes identically.
fn assert_zero(
    out: &mut Vec<Constraint>,
    e: Expr,
    Ghost(v): Ghost<int>,
    Ghost(ps): Ghost<Seq<Polynomial>>,
    Ghost(p): Ghost<Polynomial>,
)
    requires
        emits(old(out)@, v, ps),
        writes(e, v, p),
        !in_ideal(p),
    ensures
        emits(final(out)@, v, ps.push(p)),
{
    out.push(Constraint::Zero(e));
}

/// Demand that an expression vanishes at two.
fn assert_in_base_two_ideal(
    out: &mut Vec<Constraint>,
    e: Expr,
    Ghost(v): Ghost<int>,
    Ghost(ps): Ghost<Seq<Polynomial>>,
    Ghost(p): Ghost<Polynomial>,
)
    requires
        emits(old(out)@, v, ps),
        writes(e, v, p),
        in_ideal(p),
    ensures
        emits(final(out)@, v, ps.push(p)),
{
    out.push(Constraint::InBaseTwoIdeal(e));
}

/// All selectors are bits.
fn selector_bits(out: &mut Vec<Constraint>, net: &NetLayout, Ghost(ps): Ghost<Seq<Polynomial>>)
    requires
        net.lays_out(net.num_vars as int),
        emits(old(out)@, net.num_vars as int, ps),
    ensures
        emits(
            final(out)@,
            net.num_vars as int,
            ps + Seq::new(10, |j: int| Polynomial::SelectorBit(j)),
        ),
{
    let ghost v = net.num_vars as int;
    let ghost mut qs = ps;
    let mut j: usize = 0;
    while j < 10
        invariant
            v == net.num_vars,
            net.lays_out(v),
            j <= 10,
            qs == ps + Seq::new(j as nat, |i: int| Polynomial::SelectorBit(i)),
            emits(out@, v, qs),
        decreases 10 - j,
    {
        let ghost p = Polynomial::SelectorBit(j as int);
        assert_zero(out, selector_bit(net, j), Ghost(v), Ghost(qs), Ghost(p));
        proof {
            qs = qs.push(p);
            assert(qs =~= ps + Seq::new((j + 1) as nat, |i: int| Polynomial::SelectorBit(i)));
        }
        j = j + 1;
    }
}

/// All limbs before the selected one stay.
fn equal_prefixes(out: &mut Vec<Constraint>, net: &NetLayout, Ghost(ps): Ghost<Seq<Polynomial>>)
    requires
        net.lays_out(net.num_vars as int),
        emits(old(out)@, net.num_vars as int, ps),
    ensures
        emits(
            final(out)@,
            net.num_vars as int,
            ps + Seq::new(10, |j: int| Polynomial::EqualPrefix(j)),
        ),
{
    let ghost v = net.num_vars as int;
    let ghost mut qs = ps;
    let mut j: usize = 0;
    while j < 10
        invariant
            v == net.num_vars,
            net.lays_out(v),
            j <= 10,
            qs == ps + Seq::new(j as nat, |i: int| Polynomial::EqualPrefix(i)),
            emits(out@, v, qs),
        decreases 10 - j,
    {
        let ghost p = Polynomial::EqualPrefix(j as int);
        assert_zero(out, equal_prefix(net, j), Ghost(v), Ghost(qs), Ghost(p));
        proof {
            qs = qs.push(p);
            assert(qs =~= ps + Seq::new((j + 1) as nat, |i: int| Polynomial::EqualPrefix(i)));
        }
        j = j + 1;
    }
}

/// A read at an unchanged address keeps the value.
fn read_values(out: &mut Vec<Constraint>, net: &NetLayout, Ghost(ps): Ghost<Seq<Polynomial>>)
    requires
        net.lays_out(net.num_vars as int),
        emits(old(out)@, net.num_vars as int, ps),
    ensures
        emits(
            final(out)@,
            net.num_vars as int,
            ps + Seq::new(8, |j: int| Polynomial::ReadValue(j)),
        ),
{
    let ghost v = net.num_vars as int;
    let ghost mut qs = ps;
    let mut j: usize = 0;
    while j < 8
        invariant
            v == net.num_vars,
            net.lays_out(v),
            j <= 8,
            qs == ps + Seq::new(j as nat, |i: int| Polynomial::ReadValue(i)),
            emits(out@, v, qs),
        decreases 8 - j,
    {
        let ghost p = Polynomial::ReadValue(j as int);
        assert_zero(out, read_value(net, j), Ghost(v), Ghost(qs), Ghost(p));
        proof {
            qs = qs.push(p);
            assert(qs =~= ps + Seq::new((j + 1) as nat, |i: int| Polynomial::ReadValue(i)));
        }
        j = j + 1;
    }
}

/// The constraints on the sorted trace.
fn sorted_constraints(out: &mut Vec<Constraint>, net: &NetLayout, Ghost(ps): Ghost<Seq<Polynomial>>)
    requires
        net.lays_out(net.num_vars as int),
        emits(old(out)@, net.num_vars as int, ps),
    ensures
        emits(final(out)@, net.num_vars as int, ps + sorted_polynomials()),
{
    let ghost v = net.num_vars as int;
    let ghost mut qs = ps;
    let ghost p = Polynomial::FirstAccess;
    assert_zero(out, first_access(net), Ghost(v), Ghost(qs), Ghost(p));
    proof {
        qs = qs.push(p);
    }
    let ghost p = Polynomial::InstructionBit;
    assert_zero(out, instruction_bit(net), Ghost(v), Ghost(qs), Ghost(p));
    proof {
        qs = qs.push(p);
    }
    selector_bits(out, net, Ghost(qs));
    proof {
        qs = qs + Seq::new(10, |j: int| Polynomial::SelectorBit(j));
    }
    let ghost p = Polynomial::OneSelector;
    assert_zero(out, one_selector(net), Ghost(v), Ghost(qs), Ghost(p));
    proof {
        qs = qs.push(p);
    }
    equal_prefixes(out, net, Ghost(qs));
    proof {
        qs = qs + Seq::new(10, |j: int| Polynomial::EqualPrefix(j));
    }
    let ghost p = Polynomial::KeyIncrease;
    assert_in_base_two_ideal(out, key_increase(net), Ghost(v), Ghost(qs), Ghost(p));
    proof {
        qs = qs.push(p);
    }
    let ghost p = Polynomial::Helper;
    assert_zero(out, helper_definition(net), Ghost(v), Ghost(qs), Ghost(p));
    proof {
        qs = qs.push(p);
    }
    read_values(out, net, Ghost(qs));
    proof {
        qs = qs + Seq::new(8, |j: int| Polynomial::ReadValue(j));
    }
    let ghost p = Polynomial::NewAddress;
    assert_zero(out, new_address(net), Ghost(v), Ghost(qs), Ghost(p));
    proof {
        qs = qs.push(p);
    }
    assert(qs =~= ps + sorted_polynomials());
}

/// The constraints on the original trace.
fn original_constraints(out: &mut Vec<Constraint>, net: &NetLayout, Ghost(ps): Ghost<Seq<Polynomial>>)
    requires
        net.lays_out(net.num_vars as int),
        emits(old(out)@, net.num_vars as int, ps),
    ensures
        emits(final(out)@, net.num_vars as int, ps + original_polynomials()),
{
    let ghost v = net.num_vars as int;
    let ghost mut qs = ps;
    let ghost p = Polynomial::FirstTime(8);
    assert_zero(out, first_time(net, PL_TIME), Ghost(v), Ghost(qs), Ghost(p));
    proof {
        qs = qs.push(p);
    }
    let ghost p = Polynomial::FirstTime(9);
    assert_zero(out, first_time(net, PL_TIME + 1), Ghost(v), Ghost(qs), Ghost(p));
    proof {
        qs = qs.push(p);
    }
    let ghost p = Polynomial::TimeHiBit;
    assert_zero(out, time_selector_bit(net, net.int_time_hi_sel), Ghost(v), Ghost(qs), Ghost(p));
    proof {
        qs = qs.push(p);
    }
    let ghost p = Polynomial::TimeLoBit;
    assert_zero(out, time_selector_bit(net, net.int_time_lo_sel), Ghost(v), Ghost(qs), Ghost(p));
    proof {
        qs = qs.push(p);
    }
    let ghost p = Polynomial::OneTimeSelector;
    assert_zero(out, one_time_selector(net), Ghost(v), Ghost(qs), Ghost(p));
    proof {
        qs = qs.push(p);
    }
    let ghost p = Polynomial::EqualHi;
    assert_zero(out, equal_hi(net), Ghost(v), Ghost(qs), Ghost(p));
    proof {
        qs = qs.push(p);
    }
    let ghost p = Polynomial::TimeIncrease;
    assert_in_base_two_ideal(out, time_increase(net), Ghost(v), Ghost(qs), Ghost(p));
    proof {
        qs = qs.push(p);
    }
    assert(qs =~= ps + original_polynomials());
}

/// The constraints on the cells that layer `layer` swaps or keeps.
fn cell_swaps(
    out: &mut Vec<Constraint>,
    net: &NetLayout,
    layer: usize,
    Ghost(ps): Ghost<Seq<Polynomial>>,
)
    requires
        net.lays_out(net.num_vars as int),
        layer < net.num_layers,
        emits(old(out)@, net.num_vars as int, ps),
    ensures
        emits(final(out)@, net.num_vars as int, ps + swap_polynomials(layer as int, 21)),
{
    let ghost v = net.num_vars as int;
    let ghost l = layer as int;
    let ghost mut qs = ps;
    let mut payload: usize = 0;
    assert(qs =~= ps + swap_polynomials(l, 0));
    while payload < PAYLOAD_CELLS
        invariant
            v == net.num_vars,
            l == layer,
            net.lays_out(v),
            layer < net.num_layers,
            payload <= PAYLOAD_CELLS,
            qs == ps + swap_polynomials(l, payload as int),
            emits(out@, v, qs),
        decreases PAYLOAD_CELLS - payload,
    {
        let ghost upper = Polynomial::UpperSwap(l, payload as int);
        let ghost lower = Polynomial::LowerSwap(l, payload as int);
        assert_zero(out, upper_swap(net, layer, payload), Ghost(v), Ghost(qs), Ghost(upper));
        let ghost half = qs.push(upper);
        assert_zero(out, lower_swap(net, layer, payload), Ghost(v), Ghost(half), Ghost(lower));
        proof {
            qs = half.push(lower);
            assert(qs =~= ps + swap_polynomials(l, payload + 1));
        }
        payload = payload + 1;
    }
}

/// The constraints on the switching network.
fn network_constraints(
    out: &mut Vec<Constraint>,
    net: &NetLayout,
    Ghost(ps): Ghost<Seq<Polynomial>>,
)
    requires
        net.lays_out(net.num_vars as int),
        emits(old(out)@, net.num_vars as int, ps),
    ensures
        emits(
            final(out)@,
            net.num_vars as int,
            ps + network_polynomials(2 * net.num_vars - 1),
        ),
{
    let ghost v = net.num_vars as int;
    let ghost mut qs = ps;
    let mut layer: usize = 0;
    assert(qs =~= ps + network_polynomials(0));
    while layer < net.num_layers
        invariant
            v == net.num_vars,
            net.lays_out(v),
            layer <= net.num_layers,
            qs == ps + network_polynomials(layer as int),
            emits(out@, v, qs),
        decreases net.num_layers - layer,
    {
        let ghost p = Polynomial::SwitchBit(layer as int);
        assert_zero(out, switch_bit(net, layer), Ghost(v), Ghost(qs), Ghost(p));
        let ghost led = qs.push(p);
        cell_swaps(out, net, layer, Ghost(led));
        proof {
            qs = led + swap_polynomials(layer as int, 21);
            assert(qs =~= ps + network_polynomials(layer + 1));
        }
        layer = layer + 1;
    }
}

// ---------------------------------------------------------------------------
// The polynomials vanish exactly when the cells are as demanded.
// ---------------------------------------------------------------------------

proof fn lemma_product(a: int, b: int)
    ensures
        a * b == 0 <==> a == 0 || b == 0,
{
    assert(a * b == 0 <==> a == 0 || b == 0) by (nonlinear_arith);
}

proof fn lemma_bit(a: int)
    ensures
        a * (a - 1) == 0 <==> a == 0 || a == 1,
{
    lemma_product(a, a - 1);
}

proof fn lemma_here(row: Row, g: int, p: int)
    ensures
        here_at(row, g, p, 2) == here(row, g, p),
{
    expr::lemma_bits_at_two(here(row, g, p));
}

proof fn lemma_below(v: int, row: Row, g: int, p: int, a: int)
    ensures
        below_at(v, row, g, p, a, 2) == below(v, row, g, p, a),
{
    expr::lemma_bits_at_two(below(v, row, g, p, a));
}

proof fn lemma_step(v: int, row: Row, g: int, p: int)
    ensures
        step_at(v, row, g, p, 2) == below(v, row, g, p, 1) - here(row, g, p),
        below(v, row, g, p, 1) == here(row, g, p) ==> forall|x: int| #[trigger]
            step_at(v, row, g, p, x) == 0,
{
    lemma_here(row, g, p);
    lemma_below(v, row, g, p, 1);
}

proof fn lemma_selectors(v: int, row: Row, n: int)
    requires
        0 <= n <= 10,
    ensures
        selectors_are_bits(v, row, n) <==> forall|j: int|
            0 <= j < n ==> (#[trigger] selector(v, row, j) == 0 || selector(v, row, j) == 1),
    decreases n,
{
    if n > 0 {
        lemma_selectors(v, row, n - 1);
        lemma_bit(selector(v, row, n - 1));
        assert(selector_bit_at(v, row, n - 1, 0) == selector(v, row, n - 1) * (selector(
            v,
            row,
            n - 1,
        ) - 1));
    }
}

/// Bits that add up to at most one are all zero but for at most one of them.
proof fn lemma_one_hot(v: int, row: Row, n: int) -> (k: int)
    requires
        0 <= n <= 10,
        forall|j: int|
            0 <= j < n ==> (#[trigger] selector(v, row, j) == 0 || selector(v, row, j) == 1),
        selector_sum(v, row, n) <= 1,
    ensures
        0 <= k <= n,
        selector_sum(v, row, n) == if k < n {
            1int
        } else {
            0
        },
        forall|j: int|
            0 <= j < n ==> #[trigger] selector(v, row, j) == if j == k {
                1int
            } else {
                0
            },
    decreases n,
{
    if n == 0 {
        0
    } else {
        assert(selector(v, row, n - 1) == 0 || selector(v, row, n - 1) == 1);
        let k = lemma_one_hot(v, row, n - 1);
        if selector(v, row, n - 1) == 1 {
            n - 1
        } else if k == n - 1 {
            n
        } else {
            k
        }
    }
}

proof fn lemma_sums(v: int, row: Row, k: int, n: int)
    requires
        0 <= n <= 10,
        0 <= k < 10,
        selects(v, row, k),
    ensures
        selector_sum(v, row, n) == if n > k {
            1int
        } else {
            0
        },
        increase_at(v, row, n, 2) == if n > k {
            step_at(v, row, 0, k, 2)
        } else {
            0
        },
    decreases n,
{
    if n > 0 {
        lemma_sums(v, row, k, n - 1);
        let s = selector(v, row, n - 1);
        let d = step_at(v, row, 0, n - 1, 2);
        assert(s * d == if s == 0 {
            0
        } else {
            d
        }) by (nonlinear_arith)
            requires
                s == 0 || s == 1,
        ;
    }
}

proof fn lemma_prefixes(v: int, row: Row, k: int, n: int)
    requires
        0 <= n <= 10,
        0 <= k < 10,
        selects(v, row, k),
    ensures
        prefixes_are_equal(v, row, n) <==> forall|j: int|
            0 <= j < k && j < n ==> #[trigger] below(v, row, 0, j, 1) == here(row, 0, j),
    decreases n,
{
    if n > 0 {
        let j = n - 1;
        lemma_prefixes(v, row, k, j);
        lemma_sums(v, row, k, n);
        lemma_step(v, row, 0, j);
        let f = 1 - selector_sum(v, row, n);
        lemma_product(f, step_at(v, row, 0, j, 2));
        assert(equal_prefix_at(v, row, j, 2) == f * step_at(v, row, 0, j, 2));
        if j >= k || below(v, row, 0, j, 1) == here(row, 0, j) {
            assert forall|x: int| #[trigger] equal_prefix_at(v, row, j, x) == 0 by {
                lemma_product(f, step_at(v, row, 0, j, x));
                assert(j < k ==> step_at(v, row, 0, j, x) == 0);
            }
        }
        if prefixes_are_equal(v, row, n) && j < k {
            assert(below(v, row, 0, j, 1) == here(row, 0, j));
        }
    }
}

proof fn lemma_reads(v: int, row: Row, n: int)
    requires
        0 <= n <= 8,
    ensures
        reads_return_values(v, row, n) <==> helper(v, row) == 0 || forall|j: int|
            12 <= j < 12 + n ==> #[trigger] below(v, row, 0, j, 1) == here(row, 0, j),
    decreases n,
{
    if n > 0 {
        let j = n - 1;
        lemma_reads(v, row, j);
        lemma_step(v, row, 0, 12 + j);
        let w = helper(v, row);
        lemma_product(w, step_at(v, row, 0, 12 + j, 2));
        assert(read_value_at(v, row, j, 2) == w * step_at(v, row, 0, 12 + j, 2));
        if w == 0 || below(v, row, 0, 12 + j, 1) == here(row, 0, 12 + j) {
            assert forall|x: int| #[trigger] read_value_at(v, row, j, x) == 0 by {
                lemma_product(w, step_at(v, row, 0, 12 + j, x));
                assert(w != 0 ==> step_at(v, row, 0, 12 + j, x) == 0);
            }
        }
    }
}

proof fn lemma_vanishing_sorted(v: int, row: Row)
    requires
        sorted_polynomials_vanish(v, row),
    ensures
        sorted_ok(v, row),
{
    lemma_here(row, 0, 20);
    lemma_below(v, row, 0, 20, 1);
    let instr = here(row, 0, 20);
    let next = below(v, row, 0, 20, 1);
    assert(first_access_at(row, 2) == 0);
    lemma_product(row.int[0] as int, instr - 1);
    assert(instruction_bit_at(v, row, 2) == 0);
    lemma_bit(next);
    lemma_selectors(v, row, 10);
    assert(one_selector_at(v, row, 2) == 0);
    let k = lemma_one_hot(v, row, 10);
    assert(selects(v, row, k));
    lemma_sums(v, row, k, 10);
    lemma_prefixes(v, row, k, 10);
    lemma_step(v, row, 0, k);
    expr::lemma_bits_at_two(row.up[layout::slack_sorted(v)] as int);
    assert(helper_at(v, row, 2) == 0);
    assert(new_address_at(v, row, 2) == 0);
    let a = same_address(v, row);
    assert(selector(v, row, 8) == if k == 8 {
        1int
    } else {
        0
    });
    assert(selector(v, row, 9) == if k == 9 {
        1int
    } else {
        0
    });
    lemma_product(1 - a, next - 1);
    assert(a * (next - 1) == if a == 0 {
        0
    } else {
        next - 1
    }) by (nonlinear_arith)
        requires
            a == 0 || a == 1,
    ;
    lemma_reads(v, row, 8);
    assert(key_step(v, row, k) && value_step(v, row, k));
}

proof fn lemma_sorted_vanishing(v: int, row: Row)
    requires
        sorted_ok(v, row),
    ensures
        sorted_polynomials_vanish(v, row),
{
    let k = choose|k: int|
        0 <= k < NUM_LEX_LIMBS && #[trigger] key_step(v, row, k) && value_step(v, row, k);
    let next = below(v, row, 0, 20, 1);
    let a = same_address(v, row);
    assert(selector(v, row, 8) == if k == 8 {
        1int
    } else {
        0
    });
    assert(selector(v, row, 9) == if k == 9 {
        1int
    } else {
        0
    });
    assert forall|x: int| #[trigger] first_access_at(row, x) == 0 by {
        expr::lemma_constant_bits(x);
        lemma_product(row.int[0] as int, here_at(row, 0, 20, x) - 1);
    }
    assert forall|x: int| #[trigger] instruction_bit_at(v, row, x) == 0 by {
        expr::lemma_constant_bits(x);
    }
    lemma_selectors(v, row, 10);
    lemma_sums(v, row, k, 10);
    lemma_prefixes(v, row, k, 10);
    lemma_step(v, row, 0, k);
    expr::lemma_bits_at_two(row.up[layout::slack_sorted(v)] as int);
    assert forall|x: int| #[trigger] helper_at(v, row, x) == 0 by {
        expr::lemma_constant_bits(x);
        let n = below_at(v, row, 0, 20, 1, x);
        assert(a * (n - 1) == if a == 0 {
            0
        } else {
            n - 1
        }) by (nonlinear_arith)
            requires
                a == 0 || a == 1,
        ;
    }
    lemma_reads(v, row, 8);
    assert forall|x: int| #[trigger] new_address_at(v, row, x) == 0 by {
        expr::lemma_constant_bits(x);
        lemma_product(1 - a, below_at(v, row, 0, 20, 1, x) - 1);
    }
}

proof fn lemma_original(v: int, row: Row)
    ensures
        original_polynomials_vanish(v, row) <==> original_ok(v, row),
{
    let g = 2 * v - 1;
    let f = row.int[0] as int;
    let hs = row.int[layout::time_hi_col(v)] as int;
    let ls = row.int[layout::time_lo_col(v)] as int;
    lemma_here(row, g, 8);
    lemma_here(row, g, 9);
    lemma_step(v, row, g, 8);
    lemma_step(v, row, g, 9);
    expr::lemma_bits_at_two(row.up[layout::slack_original(v)] as int);
    lemma_bit(hs);
    lemma_bit(ls);
    let dh = step_at(v, row, g, 8, 2);
    let dl = step_at(v, row, g, 9, 2);
    assert(hs == 1 && ls == 0 ==> hs * dh + ls * dl == dh) by (nonlinear_arith);
    assert(hs == 0 && ls == 1 ==> hs * dh + ls * dl == dl) by (nonlinear_arith);
    if original_polynomials_vanish(v, row) {
        assert(first_time_at(v, row, 8, 2) == 0);
        assert(first_time_at(v, row, 9, 2) == 0);
        lemma_product(f, here(row, g, 8));
        lemma_product(f, here(row, g, 9));
        assert(time_selector_bit_at(row, layout::time_hi_col(v), 2) == 0);
        assert(time_selector_bit_at(row, layout::time_lo_col(v), 2) == 0);
        assert(one_time_selector_at(v, row, 2) == 0);
        assert(equal_hi_at(v, row, 2) == 0);
        lemma_product(1 - hs, dh);
        assert(original_ok(v, row));
    }
    if original_ok(v, row) {
        assert forall|x: int| #[trigger] first_time_at(v, row, 8, x) == 0 by {
            expr::lemma_constant_bits(x);
            lemma_product(f, here_at(row, g, 8, x));
        }
        assert forall|x: int| #[trigger] first_time_at(v, row, 9, x) == 0 by {
            expr::lemma_constant_bits(x);
            lemma_product(f, here_at(row, g, 9, x));
        }
        assert forall|x: int| #[trigger] equal_hi_at(v, row, x) == 0 by {
            lemma_product(1 - hs, step_at(v, row, g, 8, x));
        }
    }
}

proof fn lemma_cell(v: int, row: Row, l: int, p: int)
    requires
        mask(v, row, l) != 0,
        switch(v, row, l) == 0 || switch(v, row, l) == 1,
    ensures
        ({
            &&& forall|x: int| #[trigger] upper_swap_at(v, row, l, p, x) == 0
            &&& forall|x: int| #[trigger] lower_swap_at(v, row, l, p, x) == 0
        }) <==> switched(v, row, l, p, switch(v, row, l) == 1),
{
    let a = benes::stride_of(v, l);
    let m = mask(v, row, l);
    let s = switch(v, row, l);
    lemma_here(row, l, p);
    lemma_here(row, l + 1, p);
    lemma_below(v, row, l, p, a);
    lemma_below(v, row, l + 1, p, a);
    assert forall|x: int| #[trigger] upper_swap_at(v, row, l, p, x) == 0 <==> here_at(
        row,
        l + 1,
        p,
        x,
    ) == (if s == 1 {
        below_at(v, row, l, p, a, x)
    } else {
        here_at(row, l, p, x)
    }) by {
        lemma_cell_at(v, row, l, p, x);
    }
    assert forall|x: int| #[trigger] lower_swap_at(v, row, l, p, x) == 0 <==> below_at(
        v,
        row,
        l + 1,
        p,
        a,
        x,
    ) == (if s == 1 {
        here_at(row, l, p, x)
    } else {
        below_at(v, row, l, p, a, x)
    }) by {
        lemma_cell_at(v, row, l, p, x);
    }
    if {
        &&& forall|x: int| #[trigger] upper_swap_at(v, row, l, p, x) == 0
        &&& forall|x: int| #[trigger] lower_swap_at(v, row, l, p, x) == 0
    } {
        assert(upper_swap_at(v, row, l, p, 2) == 0);
        assert(lower_swap_at(v, row, l, p, 2) == 0);
    }
}

proof fn lemma_cell_at(v: int, row: Row, l: int, p: int, x: int)
    requires
        mask(v, row, l) != 0,
        switch(v, row, l) == 0 || switch(v, row, l) == 1,
    ensures
        upper_swap_at(v, row, l, p, x) == 0 <==> here_at(row, l + 1, p, x) == (if switch(v, row, l)
            == 1 {
            below_at(v, row, l, p, benes::stride_of(v, l), x)
        } else {
            here_at(row, l, p, x)
        }),
        lower_swap_at(v, row, l, p, x) == 0 <==> below_at(
            v,
            row,
            l + 1,
            p,
            benes::stride_of(v, l),
            x,
        ) == (if switch(v, row, l) == 1 {
            here_at(row, l, p, x)
        } else {
            below_at(v, row, l, p, benes::stride_of(v, l), x)
        }),
{
    let a = benes::stride_of(v, l);
    let m = mask(v, row, l);
    let s = switch(v, row, l);
    let d = below_at(v, row, l, p, a, x) - here_at(row, l, p, x);
    assert(s * d == if s == 0 {
        0
    } else {
        d
    }) by (nonlinear_arith)
        requires
            s == 0 || s == 1,
    ;
    lemma_product(m, here_at(row, l + 1, p, x) - here_at(row, l, p, x) - s * d);
    lemma_product(
        m,
        below_at(v, row, l + 1, p, a, x) - below_at(v, row, l, p, a, x) + s * d,
    );
}

proof fn lemma_cells(v: int, row: Row, l: int, n: int)
    requires
        0 <= n <= 21,
        mask(v, row, l) != 0 ==> switch(v, row, l) == 0 || switch(v, row, l) == 1,
    ensures
        ({
            let set = switch(v, row, l) == 1;
            cells_are_swapped(v, row, l, n) <==> mask(v, row, l) == 0 || forall|p: int|
                0 <= p < n ==> #[trigger] switched(v, row, l, p, set)
        }),
    decreases n,
{
    let set = switch(v, row, l) == 1;
    if n > 0 {
        lemma_cells(v, row, l, n - 1);
        if mask(v, row, l) == 0 {
            assert forall|x: int| #[trigger] upper_swap_at(v, row, l, n - 1, x) == 0 by {
                lemma_product(
                    mask(v, row, l),
                    here_at(row, l + 1, n - 1, x) - here_at(row, l, n - 1, x) - difference_at(
                        v,
                        row,
                        l,
                        n - 1,
                        x,
                    ),
                );
            }
            assert forall|x: int| #[trigger] lower_swap_at(v, row, l, n - 1, x) == 0 by {
                let a = benes::stride_of(v, l);
                lemma_product(
                    mask(v, row, l),
                    below_at(v, row, l + 1, n - 1, a, x) - below_at(v, row, l, n - 1, a, x)
                        + difference_at(v, row, l, n - 1, x),
                );
            }
        } else {
            lemma_cell(v, row, l, n - 1);
        }
    }
}

proof fn lemma_layer(v: int, row: Row, l: int)
    ensures
        ({
            &&& forall|x: int| #[trigger] switch_bit_at(v, row, l, x) == 0
            &&& cells_are_swapped(v, row, l, 21)
        }) <==> layer_ok(v, row, l),
{
    let s = switch(v, row, l);
    lemma_bit(s);
    lemma_product(mask(v, row, l), s * (s - 1));
    assert(switch_bit_at(v, row, l, 2) == mask(v, row, l) * (s * (s - 1)));
    if mask(v, row, l) == 0 || s == 0 || s == 1 {
        lemma_cells(v, row, l, 21);
    }
}

proof fn lemma_layers(v: int, row: Row, n: int)
    requires
        0 <= n,
    ensures
        layers_are_switched(v, row, n) <==> forall|l: int|
            0 <= l < n ==> #[trigger] layer_ok(v, row, l),
    decreases n,
{
    if n > 0 {
        lemma_layers(v, row, n - 1);
        lemma_layer(v, row, n - 1);
    }
}

/// Constraints on listed polynomials hold exactly when the polynomials vanish.
proof fn lemma_emitted(cs: Seq<Constraint>, v: int, ps: Seq<Polynomial>, row: Row)
    requires
        emits(cs, v, ps),
    ensures
        expr::all_hold(cs, row) <==> all_vanish(ps, v, row),
{
    assert forall|i: int| 0 <= i < cs.len() implies (expr::holds(#[trigger] cs[i], row)
        <==> vanishes(ps[i], v, row)) by {
        assert(constrains(cs[i], v, ps[i]));
        lemma_constrained(cs[i], v, ps[i], row);
    }
    if expr::all_hold(cs, row) {
        assert forall|i: int| 0 <= i < ps.len() implies vanishes(#[trigger] ps[i], v, row) by {
            assert(expr::holds(cs[i], row));
        }
    }
}

proof fn lemma_constrained(c: Constraint, v: int, p: Polynomial, row: Row)
    requires
        constrains(c, v, p),
    ensures
        expr::holds(c, row) <==> vanishes(p, v, row),
{
    match c {
        Constraint::Zero(e) => {
            if expr::is_zero(e, row) {
                assert forall|x: int| #[trigger] value_at(p, v, row, x) == 0 by {
                    assert(expr::eval(e, row, x) == value_at(p, v, row, x));
                }
            }
            if vanishes(p, v, row) {
                assert forall|x: int| #[trigger] expr::eval(e, row, x) == 0 by {
                    assert(expr::eval(e, row, x) == value_at(p, v, row, x));
                }
            }
        },
        Constraint::InBaseTwoIdeal(e) => {
            assert(expr::eval(e, row, 2) == value_at(p, v, row, 2));
        },
    }
}

proof fn lemma_vanish_concat(a: Seq<Polynomial>, b: Seq<Polynomial>, v: int, row: Row)
    ensures
        all_vanish(a + b, v, row) <==> all_vanish(a, v, row) && all_vanish(b, v, row),
{
    if all_vanish(a + b, v, row) {
        assert forall|i: int| 0 <= i < a.len() implies vanishes(#[trigger] a[i], v, row) by {
            assert(vanishes((a + b)[i], v, row));
        }
        assert forall|i: int| 0 <= i < b.len() implies vanishes(#[trigger] b[i], v, row) by {
            assert((a + b)[a.len() + i] == b[i]);
            assert(vanishes((a + b)[a.len() + i], v, row));
        }
    }
}

proof fn lemma_vanish_push(a: Seq<Polynomial>, p: Polynomial, v: int, row: Row)
    ensures
        all_vanish(a.push(p), v, row) <==> all_vanish(a, v, row) && vanishes(p, v, row),
{
    let more = a.push(p);
    if all_vanish(more, v, row) {
        assert(vanishes(more[a.len() as int], v, row));
        assert forall|i: int| 0 <= i < a.len() implies vanishes(#[trigger] a[i], v, row) by {
            assert(vanishes(more[i], v, row));
        }
    }
}

proof fn lemma_selector_bits(v: int, row: Row, n: int)
    requires
        n >= 0,
    ensures
        all_vanish(Seq::new(n as nat, |j: int| Polynomial::SelectorBit(j)), v, row)
            <==> selectors_are_bits(v, row, n),
    decreases n,
{
    if n > 0 {
        let before = Seq::new((n - 1) as nat, |j: int| Polynomial::SelectorBit(j));
        let p = Polynomial::SelectorBit(n - 1);
        lemma_selector_bits(v, row, n - 1);
        lemma_vanish_push(before, p, v, row);
        assert(Seq::new(n as nat, |j: int| Polynomial::SelectorBit(j)) =~= before.push(p));
        assert(vanishes(p, v, row) <==> forall|x: int| #[trigger]
            selector_bit_at(v, row, n - 1, x) == 0) by {
            assert forall|x: int| #[trigger] value_at(p, v, row, x) == selector_bit_at(
                v,
                row,
                n - 1,
                x,
            ) by {}
            assert forall|x: int| #[trigger] selector_bit_at(v, row, n - 1, x) == value_at(
                p,
                v,
                row,
                x,
            ) by {}
        }
    }
}

proof fn lemma_equal_prefixes(v: int, row: Row, n: int)
    requires
        n >= 0,
    ensures
        all_vanish(Seq::new(n as nat, |j: int| Polynomial::EqualPrefix(j)), v, row)
            <==> prefixes_are_equal(v, row, n),
    decreases n,
{
    if n > 0 {
        let before = Seq::new((n - 1) as nat, |j: int| Polynomial::EqualPrefix(j));
        let p = Polynomial::EqualPrefix(n - 1);
        lemma_equal_prefixes(v, row, n - 1);
        lemma_vanish_push(before, p, v, row);
        assert(Seq::new(n as nat, |j: int| Polynomial::EqualPrefix(j)) =~= before.push(p));
        assert forall|x: int| #[trigger] equal_prefix_at(v, row, n - 1, x) == value_at(
            p,
            v,
            row,
            x,
        ) by {}
    }
}

proof fn lemma_read_values(v: int, row: Row, n: int)
    requires
        n >= 0,
    ensures
        all_vanish(Seq::new(n as nat, |j: int| Polynomial::ReadValue(j)), v, row)
            <==> reads_return_values(v, row, n),
    decreases n,
{
    if n > 0 {
        let before = Seq::new((n - 1) as nat, |j: int| Polynomial::ReadValue(j));
        let p = Polynomial::ReadValue(n - 1);
        lemma_read_values(v, row, n - 1);
        lemma_vanish_push(before, p, v, row);
        assert(Seq::new(n as nat, |j: int| Polynomial::ReadValue(j)) =~= before.push(p));
        assert forall|x: int| #[trigger] read_value_at(v, row, n - 1, x) == value_at(
            p,
            v,
            row,
            x,
        ) by {}
    }
}

proof fn lemma_swaps(v: int, row: Row, l: int, n: int)
    requires
        n >= 0,
    ensures
        all_vanish(swap_polynomials(l, n), v, row) <==> cells_are_swapped(v, row, l, n),
    decreases n,
{
    if n > 0 {
        let before = swap_polynomials(l, n - 1);
        let upper = Polynomial::UpperSwap(l, n - 1);
        let lower = Polynomial::LowerSwap(l, n - 1);
        lemma_swaps(v, row, l, n - 1);
        lemma_vanish_push(before, upper, v, row);
        lemma_vanish_push(before.push(upper), lower, v, row);
        assert(swap_polynomials(l, n) =~= before.push(upper).push(lower));
        assert forall|x: int| #[trigger] upper_swap_at(v, row, l, n - 1, x) == value_at(
            upper,
            v,
            row,
            x,
        ) by {}
        assert forall|x: int| #[trigger] lower_swap_at(v, row, l, n - 1, x) == value_at(
            lower,
            v,
            row,
            x,
        ) by {}
    }
}

proof fn lemma_network(v: int, row: Row, n: int)
    requires
        n >= 0,
    ensures
        all_vanish(network_polynomials(n), v, row) <==> layers_are_switched(v, row, n),
    decreases n,
{
    if n > 0 {
        let before = network_polynomials(n - 1);
        let p = Polynomial::SwitchBit(n - 1);
        lemma_network(v, row, n - 1);
        lemma_vanish_push(before, p, v, row);
        lemma_vanish_concat(before.push(p), swap_polynomials(n - 1, 21), v, row);
        lemma_swaps(v, row, n - 1, 21);
        assert forall|x: int| #[trigger] switch_bit_at(v, row, n - 1, x) == value_at(
            p,
            v,
            row,
            x,
        ) by {}
    }
}

proof fn lemma_sorted_list(v: int, row: Row)
    ensures
        all_vanish(sorted_polynomials(), v, row) <==> sorted_polynomials_vanish(v, row),
{
    let none = Seq::<Polynomial>::empty();
    let a = none.push(Polynomial::FirstAccess);
    let b = a.push(Polynomial::InstructionBit);
    let c = b + Seq::new(10, |j: int| Polynomial::SelectorBit(j));
    let d = c.push(Polynomial::OneSelector);
    let e = d + Seq::new(10, |j: int| Polynomial::EqualPrefix(j));
    let f = e.push(Polynomial::KeyIncrease);
    let g = f.push(Polynomial::Helper);
    let h = g + Seq::new(8, |j: int| Polynomial::ReadValue(j));
    lemma_vanish_push(none, Polynomial::FirstAccess, v, row);
    lemma_vanish_push(a, Polynomial::InstructionBit, v, row);
    lemma_vanish_concat(b, Seq::new(10, |j: int| Polynomial::SelectorBit(j)), v, row);
    lemma_selector_bits(v, row, 10);
    lemma_vanish_push(c, Polynomial::OneSelector, v, row);
    lemma_vanish_concat(d, Seq::new(10, |j: int| Polynomial::EqualPrefix(j)), v, row);
    lemma_equal_prefixes(v, row, 10);
    lemma_vanish_push(e, Polynomial::KeyIncrease, v, row);
    lemma_vanish_push(f, Polynomial::Helper, v, row);
    lemma_vanish_concat(g, Seq::new(8, |j: int| Polynomial::ReadValue(j)), v, row);
    lemma_read_values(v, row, 8);
    lemma_vanish_push(h, Polynomial::NewAddress, v, row);
    assert(sorted_polynomials() =~= h.push(Polynomial::NewAddress));
    assert(all_vanish(none, v, row));
    assert forall|x: int| #[trigger] first_access_at(row, x) == value_at(Polynomial::FirstAccess, v, row, x) by {}
    assert forall|x: int| #[trigger] instruction_bit_at(v, row, x) == value_at(Polynomial::InstructionBit, v, row, x) by {}
    assert forall|x: int| #[trigger] one_selector_at(v, row, x) == value_at(Polynomial::OneSelector, v, row, x) by {}
    assert forall|x: int| #[trigger] helper_at(v, row, x) == value_at(Polynomial::Helper, v, row, x) by {}
    assert forall|x: int| #[trigger] new_address_at(v, row, x) == value_at(Polynomial::NewAddress, v, row, x) by {}
}

proof fn lemma_original_list(v: int, row: Row)
    ensures
        all_vanish(original_polynomials(), v, row) <==> original_polynomials_vanish(v, row),
{
    let none = Seq::<Polynomial>::empty();
    let a = none.push(Polynomial::FirstTime(8));
    let b = a.push(Polynomial::FirstTime(9));
    let c = b.push(Polynomial::TimeHiBit);
    let d = c.push(Polynomial::TimeLoBit);
    let e = d.push(Polynomial::OneTimeSelector);
    let f = e.push(Polynomial::EqualHi);
    lemma_vanish_push(none, Polynomial::FirstTime(8), v, row);
    lemma_vanish_push(a, Polynomial::FirstTime(9), v, row);
    lemma_vanish_push(b, Polynomial::TimeHiBit, v, row);
    lemma_vanish_push(c, Polynomial::TimeLoBit, v, row);
    lemma_vanish_push(d, Polynomial::OneTimeSelector, v, row);
    lemma_vanish_push(e, Polynomial::EqualHi, v, row);
    lemma_vanish_push(f, Polynomial::TimeIncrease, v, row);
    assert(original_polynomials() =~= f.push(Polynomial::TimeIncrease));
    assert(all_vanish(none, v, row));
    assert forall|x: int| #[trigger] first_time_at(v, row, 8, x) == value_at(Polynomial::FirstTime(8), v, row, x) by {}
    assert forall|x: int| #[trigger] first_time_at(v, row, 9, x) == value_at(Polynomial::FirstTime(9), v, row, x) by {}
    assert forall|x: int| #[trigger] time_selector_bit_at(row, layout::time_hi_col(v), x) == value_at(Polynomial::TimeHiBit, v, row, x) by {}
    assert forall|x: int| #[trigger] time_selector_bit_at(row, layout::time_lo_col(v), x) == value_at(Polynomial::TimeLoBit, v, row, x) by {}
    assert forall|x: int| #[trigger] one_time_selector_at(v, row, x) == value_at(Polynomial::OneTimeSelector, v, row, x) by {}
    assert forall|x: int| #[trigger] equal_hi_at(v, row, x) == value_at(Polynomial::EqualHi, v, row, x) by {}
}

/// Constraints on the polynomials of a system on `2^v` rows hold on the cells of a
/// row exactly when the sorted trace, the original trace and the network are as
/// demanded there.
pub proof fn polynomials_decide_rows(cs: Seq<Constraint>, v: int, row: Row)
    requires
        v >= 1,
        emits(cs, v, polynomials(v)),
    ensures
        expr::all_hold(cs, row) <==> row_ok(v, row),
{
    lemma_emitted(cs, v, polynomials(v), row);
    let traces = sorted_polynomials() + original_polynomials();
    lemma_vanish_concat(traces, network_polynomials(2 * v - 1), v, row);
    lemma_vanish_concat(sorted_polynomials(), original_polynomials(), v, row);
    lemma_sorted_list(v, row);
    lemma_original_list(v, row);
    lemma_network(v, row, 2 * v - 1);
    if sorted_polynomials_vanish(v, row) {
        lemma_vanishing_sorted(v, row);
    }
    if sorted_ok(v, row) {
        lemma_sorted_vanishing(v, row);
    }
    lemma_original(v, row);
    lemma_layers(v, row, 2 * v - 1);
}

proof fn lemma_network_len(n: int)
    requires
        n >= 0,
    ensures
        network_polynomials(n).len() == 43 * n,
    decreases n,
{
    if n > 0 {
        lemma_network_len(n - 1);
    }
}

/// The memory-consistency constraint system on `2^V` rows.
#[derive(Clone, Debug)]
pub struct MemoryConsistencyUair<const V: usize>;

/// Numbers of columns by kind of cell.
#[derive(Clone, Copy, Debug, PartialEq, Eq, Structural)]
pub struct ColumnCounts {
    pub binary_poly: usize,
    pub arbitrary_poly: usize,
    pub int: usize,
}

impl ColumnCounts {
    /// Number of binary-polynomial columns.
    pub fn num_binary_poly_cols(&self) -> (n: usize)
        ensures
            n == self.binary_poly,
    {
        self.binary_poly
    }

    /// Number of integer columns.
    pub fn num_int_cols(&self) -> (n: usize)
        ensures
            n == self.int,
    {
        self.int
    }
}

/// A column read a number of rows further down.
#[derive(Clone, Copy, Debug, PartialEq, Eq, Structural)]
pub struct ShiftSpec {
    pub source_col: usize,
    pub shift_amount: usize,
}

/// The columns and shifts of a constraint system.
#[derive(Debug)]
pub struct UairSignature {
    total: ColumnCounts,
    public: ColumnCounts,
    shifts: Vec<ShiftSpec>,
}

impl UairSignature {
    pub closed spec fn total(&self) -> ColumnCounts {
        self.total
    }

    pub closed spec fn public(&self) -> ColumnCounts {
        self.public
    }

    pub closed spec fn shift_specs(&self) -> Seq<ShiftSpec> {
        self.shifts@
    }

    /// All columns.
    pub fn total_cols(&self) -> (counts: ColumnCounts)
        ensures
            counts == self.total(),
    {
        self.total
    }

    /// The leading columns that are public.
    pub fn public_cols(&self) -> (counts: ColumnCounts)
        ensures
            counts == self.public(),
    {
        self.public
    }

    /// The shifts, in the order of a down row.
    pub fn shifts(&self) -> (shifts: &Vec<ShiftSpec>)
        ensures
            shifts@ == self.shift_specs(),
    {
        &self.shifts
    }

    /// The columns of a down row: one for each shift, of the kind of the
    /// column that is shifted. Columns are numbered by kind: binary
    /// polynomials, arbitrary polynomials, integers.
    pub fn down_cols(&self) -> (counts: ColumnCounts)
        ensures
            counts.binary_poly == shifts_from(self.shift_specs(), 0, self.total().binary_poly as int),
            counts.arbitrary_poly == shifts_from(
                self.shift_specs(),
                self.total().binary_poly as int,
                self.total().binary_poly + self.total().arbitrary_poly,
            ),
            counts.int == self.shift_specs().len() - counts.binary_poly - counts.arbitrary_poly,
    {
        let mut binary: usize = 0;
        let mut arbitrary: usize = 0;
        let mut i: usize = 0;
        let shifts: usize = self.shifts.len();
        while i < shifts
            invariant
                i <= shifts,
                shifts == self.shift_specs().len(),
                binary + arbitrary <= i,
                binary == shifts_from(
                    self.shift_specs().take(i as int),
                    0,
                    self.total().binary_poly as int,
                ),
                arbitrary == shifts_from(
                    self.shift_specs().take(i as int),
                    self.total().binary_poly as int,
                    self.total().binary_poly + self.total().arbitrary_poly,
                ),
            decreases shifts - i,
        {
            assert(self.shift_specs().take(i + 1).drop_last() =~= self.shift_specs().take(i as int));
            let c: usize = self.shifts[i].source_col;
            if c < self.total.binary_poly {
                binary = binary + 1;
            } else if c - self.total.binary_poly < self.total.arbitrary_poly {
                arbitrary = arbitrary + 1;
            }
            i = i + 1;
        }
        assert(self.shift_specs().take(i as int) =~= self.shift_specs());
        ColumnCounts {
            binary_poly: binary,
            arbitrary_poly: arbitrary,
            int: shifts - binary - arbitrary,
        }
    }
}

/// How many of the shifts move a column of `low..high`.
pub open spec fn shifts_from(shifts: Seq<ShiftSpec>, low: int, high: int) -> int
    decreases shifts.len(),
{
    if shifts.len() == 0 {
        0
    } else {
        shifts_from(shifts.drop_last(), low, high) + if low <= shifts.last().source_col < high {
            1int
        } else {
            0
        }
    }
}

proof fn lemma_all_shifts_binary(shifts: Seq<ShiftSpec>, high: int)
    requires
        forall|i: int| 0 <= i < shifts.len() ==> (#[trigger] shifts[i]).source_col < high,
    ensures
        shifts_from(shifts, 0, high) == shifts.len(),
    decreases shifts.len(),
{
    if shifts.len() > 0 {
        lemma_all_shifts_binary(shifts.drop_last(), high);
    }
}

/// The shifts of a system on `2^v` rows.
pub open spec fn shift_specs(v: int) -> Seq<ShiftSpec> {
    Seq::new(
        layout::shift_list(v).len(),
        |i: int|
            ShiftSpec {
                source_col: layout::shift_list(v)[i].0,
                shift_amount: layout::shift_list(v)[i].1,
            },
    )
}

impl<const V: usize> MemoryConsistencyUair<V> {
    /// The columns and shifts of the system. All shifted columns are binary.
    pub fn signature() -> (signature: UairSignature)
        requires
            layout::supported(V as int),
        ensures
            signature.total() == (ColumnCounts {
                binary_poly: layout::num_bp(V as int) as usize,
                arbitrary_poly: 0,
                int: layout::num_int(V as int) as usize,
            }),
            signature.public() == (ColumnCounts {
                binary_poly: 0,
                arbitrary_poly: 0,
                int: (1 + V) as usize,
            }),
            signature.shift_specs() == shift_specs(V as int),
            shifts_from(signature.shift_specs(), 0, signature.total().binary_poly as int)
                == signature.shift_specs().len(),
    {
        let net = NetLayout::new(V);
        let mut shifts: Vec<ShiftSpec> = Vec::new();
        let mut i: usize = 0;
        while i < net.shifts.len()
            invariant
                i <= net.shifts@.len(),
                shifts@.len() == i,
                forall|k: int|
                    0 <= k < i ==> #[trigger] shifts@[k] == (ShiftSpec {
                        source_col: net.shifts@[k].0,
                        shift_amount: net.shifts@[k].1,
                    }),
            decreases net.shifts@.len() - i,
        {
            let (source_col, shift_amount) = net.shifts[i];
            shifts.push(ShiftSpec { source_col, shift_amount });
            i = i + 1;
        }
        proof {
            let v = V as int;
            assert(shifts@ =~= shift_specs(v));
            layout::shift_list_is_sorted(v, 42 * v);
            lemma_all_shifts_binary(shifts@, layout::num_bp(v));
        }
        UairSignature {
            total: ColumnCounts {
                binary_poly: net.num_bp_cols,
                arbitrary_poly: 0,
                int: net.num_int_cols,
            },
            public: ColumnCounts {
                binary_poly: 0,
                arbitrary_poly: 0,
                int: net.num_public_int_cols,
            },
            shifts,
        }
    }

    /// The constraints of the system, one for each of its polynomials and in their
    /// order. They hold on the cells of a row exactly when the sorted trace, the
    /// original trace and the network are as demanded there.
    pub fn constrain_general() -> (constraints: Vec<Constraint>)
        requires
            layout::supported(V as int),
        ensures
            emits(constraints@, V as int, polynomials(V as int)),
            constraints@.len() == 86 * V - 2,
            forall|row: Row| #[trigger]
                expr::all_hold(constraints@, row) <==> row_ok(V as int, row),
            low_degree(constraints@),
    {
        let net = NetLayout::new(V);
        let ghost v = V as int;
        let mut constraints: Vec<Constraint> = Vec::new();
        let ghost mut ps = Seq::<Polynomial>::empty();
        sorted_constraints(&mut constraints, &net, Ghost(ps));
        proof {
            ps = ps + sorted_polynomials();
        }
        original_constraints(&mut constraints, &net, Ghost(ps));
        proof {
            ps = ps + original_polynomials();
        }
        network_constraints(&mut constraints, &net, Ghost(ps));
        proof {
            assert(ps + network_polynomials(2 * v - 1) =~= polynomials(v));
            lemma_network_len(2 * v - 1);
            assert forall|row: Row| #[trigger]
                expr::all_hold(constraints@, row) <==> row_ok(v, row) by {
                polynomials_decide_rows(constraints@, v, row);
            }
            assert forall|i: int| 0 <= i < constraints@.len() implies match #[trigger] constraints@[i] {
                Constraint::Zero(e) => expr::degree(e) <= 3,
                Constraint::InBaseTwoIdeal(e) => expr::degree(e) <= 3,
            } by {
                assert(constrains(constraints@[i], v, polynomials(v)[i]));
            }
        }
        constraints
    }
}

} // verus!
