//! The constraint system: its columns, its constraints, and what they decide.

use crate::consistency;
use crate::digits;
use crate::laws::proofs;
use crate::machine;
use crate::machine::TraceRecord;
use crate::zincplus::benes;
use crate::zincplus::expr;
use crate::zincplus::expr::{Constraint, Expr, Row};
use crate::zincplus::layout;
use crate::zincplus::layout::NetLayout;
use crate::zincplus::trace;
use crate::zincplus::trace::UairTrace;
use crate::zincplus::uair;
use crate::zincplus::uair::{ColumnCounts, MemoryConsistencyUair, UairSignature};
use crate::zincplus::witness;
use vstd::arithmetic::power2::*;
use vstd::prelude::*;

verus! {

/// The columns of a system on `2^v` rows, for every `v` from three to sixteen.
pub proof fn columns_are_numbered_one_after_the_other(v: usize, net: NetLayout)
    requires
        call_ensures(NetLayout::new, (v,), net),
        3 <= v <= 16,
    ensures
        call_requires(NetLayout::new, (v,)),
        net.num_vars == v,
        net.num_layers == 2 * v - 1,
        net.num_states == 2 * v,
        net.num_bp_cols == 42 * v + 2,
        net.num_int_cols == 3 * v + 13,
        net.num_public_int_cols == 1 + v,
        net.bp_slack_sorted == 42 * v,
        net.bp_slack_original == 42 * v + 1,
        net.int_is_first == 0,
        net.int_upper == 1,
        net.int_s == v + 1,
        net.int_w == v + 11,
        net.int_time_hi_sel == v + 12,
        net.int_time_lo_sel == v + 13,
        net.int_switch == v + 14,
{
}

/// The shifts of a system are in strictly increasing order.
pub proof fn shifts_increase(v: usize, net: NetLayout, i: int, j: int)
    requires
        call_ensures(NetLayout::new, (v,), net),
        3 <= v <= 16,
        0 <= i < j < net.shifts@.len(),
    ensures
        net.shifts@[i].0 < net.shifts@[j].0 || (net.shifts@[i].0 == net.shifts@[j].0
            && net.shifts@[i].1 < net.shifts@[j].1),
{
    layout::shift_list_is_sorted(v as int, 42 * v);
    assert(layout::pair_less(net.shifts@[i], net.shifts@[j]));
}

/// The shifts of a system are, of each column of state `g`, those by the strides
/// of the layers before and after the state, those by one of the sorted state but
/// for the stack depth, and those by one of the original state's times.
pub proof fn shifts_are_those_that_are_read(v: usize, net: NetLayout, c: usize, a: usize)
    requires
        call_ensures(NetLayout::new, (v,), net),
        3 <= v <= 16,
    ensures
        net.shifts@.contains((c, a)) <==> c < 42 * v && ({
            let g = c as int / 21;
            let p = c as int % 21;
            ||| g < 2 * v - 1 && a == pow2(
                (if g < v {
                    v - 1 - g
                } else {
                    g - v + 1
                }) as nat,
            )
            ||| g > 0 && a == pow2(
                (if g <= v {
                    v - g
                } else {
                    g - v
                }) as nat,
            )
            ||| g == 0 && a == 1 && p != 10 && p != 11
            ||| g == 2 * v - 1 && a == 1 && (p == 8 || p == 9)
        }),
{
    layout::shift_list_is_complete(v as int, 42 * v, c as int, a as int);
}

/// The signature declares the columns and the shifts of the layout, and shifts
/// binary columns only.
pub proof fn signatures_declare_the_layout<const V: usize>(
    signature: UairSignature,
    down: ColumnCounts,
    net: NetLayout,
)
    requires
        3 <= V <= 16,
        call_ensures(MemoryConsistencyUair::<V>::signature, (), signature),
        call_ensures(UairSignature::down_cols, (&signature,), down),
        call_ensures(NetLayout::new, (V,), net),
    ensures
        call_requires(MemoryConsistencyUair::<V>::signature, ()),
        signature.total().binary_poly == 42 * V + 2,
        signature.total().arbitrary_poly == 0,
        signature.total().int == 3 * V + 13,
        signature.public().binary_poly == 0,
        signature.public().arbitrary_poly == 0,
        signature.public().int == 1 + V,
        signature.shift_specs().len() == net.shifts@.len(),
        forall|i: int|
            0 <= i < net.shifts@.len() ==> {
                &&& (#[trigger] signature.shift_specs()[i]).source_col == net.shifts@[i].0
                &&& signature.shift_specs()[i].shift_amount == net.shifts@[i].1
            },
        down.binary_poly == net.shifts@.len(),
        down.arbitrary_poly == 0,
        down.int == 0,
{
    lemma_none_between(signature.shift_specs(), signature.total().binary_poly as int);
}

proof fn lemma_none_between(shifts: Seq<uair::ShiftSpec>, n: int)
    ensures
        uair::shifts_from(shifts, n, n) == 0,
    decreases shifts.len(),
{
    if shifts.len() > 0 {
        lemma_none_between(shifts.drop_last(), n);
    }
}

/// The cells of a row: those of all columns in the row, and those that the shifts
/// reach, zero past the last row.
pub proof fn rows_hold_the_cells(t: UairTrace, v: usize, net: NetLayout, i: int)
    requires
        call_ensures(NetLayout::new, (v,), net),
        3 <= v <= 16,
    ensures
        trace::row_at(t, v as int, i).up.len() == 42 * v + 2,
        trace::row_at(t, v as int, i).int.len() == 3 * v + 13,
        trace::row_at(t, v as int, i).down.len() == net.shifts@.len(),
        forall|c: int|
            0 <= c < 42 * v + 2 ==> #[trigger] trace::row_at(t, v as int, i).up[c]
                == t.binary_poly@[c]@[i],
        forall|c: int|
            0 <= c < 3 * v + 13 ==> #[trigger] trace::row_at(t, v as int, i).int[c] == t.int@[c]@[i],
        forall|k: int|
            0 <= k < net.shifts@.len() ==> #[trigger] trace::row_at(t, v as int, i).down[k] == if i
                + net.shifts@[k].1 < pow2(v as nat) {
                t.binary_poly@[net.shifts@[k].0 as int]@[i + net.shifts@[k].1]
            } else {
                0
            },
{
}

/// An expression is evaluated as it is written, and a binary cell is the
/// polynomial whose coefficients are its bits.
pub proof fn expressions_are_evaluated_as_written(
    a: Expr,
    b: Expr,
    c: usize,
    row: Row,
    n: int,
    x: int,
)
    ensures
        expr::eval(Expr::One, row, x) == 1,
        expr::eval(Expr::UpBinary(c), row, x) == expr::bits_at(row.up[c as int] as int, x),
        expr::eval(Expr::UpInt(c), row, x) == row.int[c as int],
        expr::eval(Expr::DownBinary(c), row, x) == expr::bits_at(row.down[c as int] as int, x),
        expr::eval(Expr::Add(Box::new(a), Box::new(b)), row, x) == expr::eval(a, row, x)
            + expr::eval(b, row, x),
        expr::eval(Expr::Sub(Box::new(a), Box::new(b)), row, x) == expr::eval(a, row, x)
            - expr::eval(b, row, x),
        expr::eval(Expr::Mul(Box::new(a), Box::new(b)), row, x) == expr::eval(a, row, x)
            * expr::eval(b, row, x),
        expr::bits_at(0, x) == 0,
        n > 0 ==> expr::bits_at(n, x) == n % 2 + x * expr::bits_at(n / 2, x),
{
}

/// Constraints hold on a row exactly when each does: the expression of one is
/// zero at every point, or vanishes at two.
pub proof fn constraints_hold_each_by_each(constraints: Seq<Constraint>, row: Row)
    ensures
        expr::all_hold(constraints, row) <==> forall|c: int|
            0 <= c < constraints.len() ==> match #[trigger] constraints[c] {
                Constraint::Zero(e) => forall|x: int| #[trigger] expr::eval(e, row, x) == 0,
                Constraint::InBaseTwoIdeal(e) => expr::eval(e, row, 2) == 0,
            },
{
    if expr::all_hold(constraints, row) {
        assert forall|c: int| 0 <= c < constraints.len() implies match #[trigger] constraints[c] {
            Constraint::Zero(e) => forall|x: int| #[trigger] expr::eval(e, row, x) == 0,
            Constraint::InBaseTwoIdeal(e) => expr::eval(e, row, 2) == 0,
        } by {
            assert(expr::holds(constraints[c], row));
        }
    }
    if forall|c: int|
        0 <= c < constraints.len() ==> match #[trigger] constraints[c] {
            Constraint::Zero(e) => forall|x: int| #[trigger] expr::eval(e, row, x) == 0,
            Constraint::InBaseTwoIdeal(e) => expr::eval(e, row, 2) == 0,
        } {
        assert forall|c: int| 0 <= c < constraints.len() implies expr::holds(
            #[trigger] constraints[c],
            row,
        ) by {
        }
    }
}

/// A table satisfies the system exactly when it has all columns, its public
/// columns tell the first row and the clear bits of the row index, and all
/// constraints hold on every row but the last.
pub proof fn tables_satisfy_the_constraints<const V: usize>(
    t: UairTrace,
    constraints: Vec<Constraint>,
)
    requires
        3 <= V <= 16,
        call_ensures(MemoryConsistencyUair::<V>::constrain_general, (), constraints),
    ensures
        call_requires(MemoryConsistencyUair::<V>::constrain_general, ()),
        trace::satisfied(t, V as int) <==> {
            &&& t.binary_poly@.len() == 42 * V + 2
            &&& t.int@.len() == 3 * V + 13
            &&& forall|c: int|
                0 <= c < 42 * V + 2 ==> (#[trigger] t.binary_poly@[c])@.len() == pow2(V as nat)
            &&& forall|c: int| 0 <= c < 3 * V + 13 ==> (#[trigger] t.int@[c])@.len() == pow2(V as nat)
            &&& forall|c: int, i: int|
                0 <= c <= V && 0 <= i < pow2(V as nat) ==> #[trigger] t.int@[c]@[i] == if c == 0 {
                    if i == 0 {
                        1i64
                    } else {
                        0
                    }
                } else if (i / pow2((c - 1) as nat) as int) % 2 == 0 {
                    1i64
                } else {
                    0
                }
            &&& forall|i: int|
                0 <= i < pow2(V as nat) - 1 ==> expr::all_hold(
                    constraints@,
                    #[trigger] trace::row_at(t, V as int, i),
                )
        },
{
    let v = V as int;
    assert forall|c: int, i: int| 0 <= c <= V && 0 <= i implies #[trigger] trace::public_cell(c, i)
        == if c == 0 {
        if i == 0 {
            1i64
        } else {
            0
        }
    } else if (i / pow2((c - 1) as nat) as int) % 2 == 0 {
        1i64
    } else {
        0
    } by {
        if c > 0 {
            benes::upper_wires_have_a_clear_stride_bit(i, (c - 1) as nat);
        }
    }
    if trace::public_as_fixed(t, v) {
        assert forall|c: int, i: int|
            0 <= c <= V && 0 <= i < pow2(V as nat) implies #[trigger] t.int@[c]@[i]
            == trace::public_cell(c, i) by {
            assert(t.cell(c, i) == trace::public_cell(c, i));
        }
    }
    if forall|i: int|
        0 <= i < pow2(V as nat) - 1 ==> expr::all_hold(
            constraints@,
            #[trigger] trace::row_at(t, V as int, i),
        ) {
        assert forall|i: int| 0 <= i < pow2(v as nat) - 1 implies uair::row_ok(
            v,
            #[trigger] trace::row_at(t, v, i),
        ) by {
            assert(expr::all_hold(constraints@, trace::row_at(t, v, i)));
        }
    }
    if trace::satisfied(t, v) {
        assert forall|i: int| 0 <= i < pow2(v as nat) - 1 implies expr::all_hold(
            constraints@,
            #[trigger] trace::row_at(t, v, i),
        ) by {
            assert(uair::row_ok(v, trace::row_at(t, v, i)));
        }
    }
}

/// The position of a shift is the one that the layout gives it.
proof fn lemma_position(v: usize, net: NetLayout, k: int, c: int, a: int)
    requires
        call_ensures(NetLayout::new, (v,), net),
        3 <= v <= 16,
        0 <= c <= usize::MAX,
        0 <= a <= usize::MAX,
        0 <= k < net.shifts@.len(),
        net.shifts@[k] == (c as usize, a as usize),
    ensures
        layout::down_position(v as int, c, a) == k,
{
    let list = layout::shift_list(v as int);
    let at = layout::down_position(v as int, c, a);
    assert(list.contains(list[k]));
    assert(0 <= at < list.len() && list[at] == list[k]);
    layout::shift_list_is_sorted(v as int, 42 * v);
    if at < k {
        assert(layout::pair_less(list[at], list[k]));
    } else if k < at {
        assert(layout::pair_less(list[k], list[at]));
    }
}

/// There are `86 V - 2` constraints.
pub proof fn constraints_are_counted<const V: usize>(constraints: Vec<Constraint>)
    requires
        3 <= V <= 16,
        call_ensures(MemoryConsistencyUair::<V>::constrain_general, (), constraints),
    ensures
        constraints@.len() == 86 * V - 2,
{
}

/// The constraints on the sorted trace, in the cells of a row: its instruction,
/// limbs and slack, its ten selectors and its helper, and the limbs and
/// instruction of the next row.
#[verifier::rlimit(60)]
pub proof fn sorted_rows_are_constrained<const V: usize>(
    constraints: Vec<Constraint>,
    net: NetLayout,
    down: Seq<int>,
    row: Row,
    x: int,
)
    requires
        3 <= V <= 16,
        call_ensures(MemoryConsistencyUair::<V>::constrain_general, (), constraints),
        call_ensures(NetLayout::new, (V,), net),
        forall|p: int|
            0 <= p < 21 && p != 10 && p != 11 ==> 0 <= #[trigger] down[p] < net.shifts@.len()
                && net.shifts@[down[p]] == (p as usize, 1usize),
    ensures
        constraints@[0] is Zero,
        expr::eval(constraints@[0]->Zero_0, row, x) == row.int[0] * (expr::bits_at(row.up[20] as int, x) - 1),
        constraints@[1] is Zero,
        expr::eval(constraints@[1]->Zero_0, row, x) == expr::bits_at(row.down[down[20]] as int, x) * (expr::bits_at(row.down[down[20]] as int, x) - 1),
        forall|j: int|
            0 <= j < 10 ==> {
                &&& (#[trigger] constraints@[2 + j]) is Zero
                &&& expr::eval(constraints@[2 + j]->Zero_0, row, x) == row.int[V + 1 + j] * (row.int[V
                    + 1 + j] - 1)
            },
        constraints@[12] is Zero,
        expr::eval(constraints@[12]->Zero_0, row, x) == row.int[V + 1] + row.int[V + 2] + row.int[V + 3] + row.int[V + 4] + row.int[V + 5] + row.int[V + 6] + row.int[V + 7] + row.int[V + 8] + row.int[V + 9] + row.int[V + 10] - 1,
        constraints@[13] is Zero,
        expr::eval(constraints@[13]->Zero_0, row, x) == (1 - (row.int[V + 1])) * (expr::bits_at(row.down[down[0]] as int, x) - expr::bits_at(row.up[0] as int, x)),
        constraints@[14] is Zero,
        expr::eval(constraints@[14]->Zero_0, row, x) == (1 - (row.int[V + 1] + row.int[V + 2])) * (expr::bits_at(row.down[down[1]] as int, x) - expr::bits_at(row.up[1] as int, x)),
        constraints@[15] is Zero,
        expr::eval(constraints@[15]->Zero_0, row, x) == (1 - (row.int[V + 1] + row.int[V + 2] + row.int[V + 3])) * (expr::bits_at(row.down[down[2]] as int, x) - expr::bits_at(row.up[2] as int, x)),
        constraints@[16] is Zero,
        expr::eval(constraints@[16]->Zero_0, row, x) == (1 - (row.int[V + 1] + row.int[V + 2] + row.int[V + 3] + row.int[V + 4])) * (expr::bits_at(row.down[down[3]] as int, x) - expr::bits_at(row.up[3] as int, x)),
        constraints@[17] is Zero,
        expr::eval(constraints@[17]->Zero_0, row, x) == (1 - (row.int[V + 1] + row.int[V + 2] + row.int[V + 3] + row.int[V + 4] + row.int[V + 5])) * (expr::bits_at(row.down[down[4]] as int, x) - expr::bits_at(row.up[4] as int, x)),
        constraints@[18] is Zero,
        expr::eval(constraints@[18]->Zero_0, row, x) == (1 - (row.int[V + 1] + row.int[V + 2] + row.int[V + 3] + row.int[V + 4] + row.int[V + 5] + row.int[V + 6])) * (expr::bits_at(row.down[down[5]] as int, x) - expr::bits_at(row.up[5] as int, x)),
        constraints@[19] is Zero,
        expr::eval(constraints@[19]->Zero_0, row, x) == (1 - (row.int[V + 1] + row.int[V + 2] + row.int[V + 3] + row.int[V + 4] + row.int[V + 5] + row.int[V + 6] + row.int[V + 7])) * (expr::bits_at(row.down[down[6]] as int, x) - expr::bits_at(row.up[6] as int, x)),
        constraints@[20] is Zero,
        expr::eval(constraints@[20]->Zero_0, row, x) == (1 - (row.int[V + 1] + row.int[V + 2] + row.int[V + 3] + row.int[V + 4] + row.int[V + 5] + row.int[V + 6] + row.int[V + 7] + row.int[V + 8])) * (expr::bits_at(row.down[down[7]] as int, x) - expr::bits_at(row.up[7] as int, x)),
        constraints@[21] is Zero,
        expr::eval(constraints@[21]->Zero_0, row, x) == (1 - (row.int[V + 1] + row.int[V + 2] + row.int[V + 3] + row.int[V + 4] + row.int[V + 5] + row.int[V + 6] + row.int[V + 7] + row.int[V + 8] + row.int[V + 9])) * (expr::bits_at(row.down[down[8]] as int, x) - expr::bits_at(row.up[8] as int, x)),
        constraints@[22] is Zero,
        expr::eval(constraints@[22]->Zero_0, row, x) == (1 - (row.int[V + 1] + row.int[V + 2] + row.int[V + 3] + row.int[V + 4] + row.int[V + 5] + row.int[V + 6] + row.int[V + 7] + row.int[V + 8] + row.int[V + 9] + row.int[V + 10])) * (expr::bits_at(row.down[down[9]] as int, x) - expr::bits_at(row.up[9] as int, x)),
        constraints@[23] is InBaseTwoIdeal,
        expr::eval(constraints@[23]->InBaseTwoIdeal_0, row, x) == row.int[V + 1] * (expr::bits_at(row.down[down[0]] as int, x) - expr::bits_at(row.up[0] as int, x)) + row.int[V + 2] * (expr::bits_at(row.down[down[1]] as int, x) - expr::bits_at(row.up[1] as int, x)) + row.int[V + 3] * (expr::bits_at(row.down[down[2]] as int, x) - expr::bits_at(row.up[2] as int, x)) + row.int[V + 4] * (expr::bits_at(row.down[down[3]] as int, x) - expr::bits_at(row.up[3] as int, x)) + row.int[V + 5] * (expr::bits_at(row.down[down[4]] as int, x) - expr::bits_at(row.up[4] as int, x)) + row.int[V + 6] * (expr::bits_at(row.down[down[5]] as int, x) - expr::bits_at(row.up[5] as int, x)) + row.int[V + 7] * (expr::bits_at(row.down[down[6]] as int, x) - expr::bits_at(row.up[6] as int, x)) + row.int[V + 8] * (expr::bits_at(row.down[down[7]] as int, x) - expr::bits_at(row.up[7] as int, x)) + row.int[V + 9] * (expr::bits_at(row.down[down[8]] as int, x) - expr::bits_at(row.up[8] as int, x)) + row.int[V + 10] * (expr::bits_at(row.down[down[9]] as int, x) - expr::bits_at(row.up[9] as int, x)) - 1 - expr::bits_at(row.up[42 * V] as int, x),
        constraints@[24] is Zero,
        expr::eval(constraints@[24]->Zero_0, row, x) == row.int[V + 11] - (row.int[V + 9] + row.int[V + 10]) * (expr::bits_at(row.down[down[20]] as int, x) - 1),
        forall|j: int|
            0 <= j < 8 ==> {
                &&& (#[trigger] constraints@[25 + j]) is Zero
                &&& expr::eval(constraints@[25 + j]->Zero_0, row, x) == row.int[V + 11] * (
                expr::bits_at(row.down[down[12 + j]] as int, x) - expr::bits_at(
                    row.up[12 + j] as int,
                    x,
                ))
            },
        constraints@[33] is Zero,
        expr::eval(constraints@[33]->Zero_0, row, x) == (1 - (row.int[V + 9] + row.int[V + 10])) * (expr::bits_at(row.down[down[20]] as int, x) - 1),
{
    let v = V as int;
    let ps = uair::polynomials(v);
    assert forall|p: int| 0 <= p < 21 && p != 10 && p != 11 implies layout::down_position(v, p, 1)
        == #[trigger] down[p] by {
        lemma_position(V, net, down[p], p, 1);
    }
    lemma_sorted_polynomials(v);
    assert(uair::emits(constraints@, v, ps));
    assert forall|i: int| 0 <= i < 34 implies uair::constrains(
        #[trigger] constraints@[i],
        v,
        uair::sorted_polynomials()[i],
    ) by {
        assert(ps[i] == uair::sorted_polynomials()[i]);
    }
    reveal_with_fuel(uair::selector_sum, 11);
    reveal_with_fuel(uair::increase_at, 11);
}

proof fn lemma_sorted_polynomials(v: int)
    requires
        v >= 1,
    ensures
        uair::sorted_polynomials().len() == 34,
        uair::sorted_polynomials()[0] == uair::Polynomial::FirstAccess,
        uair::sorted_polynomials()[1] == uair::Polynomial::InstructionBit,
        forall|j: int|
            0 <= j < 10 ==> #[trigger] uair::sorted_polynomials()[2 + j]
                == uair::Polynomial::SelectorBit(j),
        uair::sorted_polynomials()[12] == uair::Polynomial::OneSelector,
        forall|i: int|
            13 <= i < 23 ==> #[trigger] uair::sorted_polynomials()[i]
                == uair::Polynomial::EqualPrefix(i - 13),
        uair::sorted_polynomials()[23] == uair::Polynomial::KeyIncrease,
        uair::sorted_polynomials()[24] == uair::Polynomial::Helper,
        forall|j: int|
            0 <= j < 8 ==> #[trigger] uair::sorted_polynomials()[25 + j]
                == uair::Polynomial::ReadValue(j),
        uair::sorted_polynomials()[33] == uair::Polynomial::NewAddress,
{
}

/// The constraints on the original trace, in the cells of a row: its times, its
/// slack and its time selectors, and the times of the next row.
pub proof fn original_rows_are_constrained<const V: usize>(
    constraints: Vec<Constraint>,
    net: NetLayout,
    hi: int,
    lo: int,
    row: Row,
    x: int,
)
    requires
        3 <= V <= 16,
        call_ensures(MemoryConsistencyUair::<V>::constrain_general, (), constraints),
        call_ensures(NetLayout::new, (V,), net),
        0 <= hi < net.shifts@.len(),
        0 <= lo < net.shifts@.len(),
        net.shifts@[hi] == ((21 * (2 * V - 1) + 8) as usize, 1usize),
        net.shifts@[lo] == ((21 * (2 * V - 1) + 9) as usize, 1usize),
    ensures
        constraints@[34] is Zero,
        expr::eval(constraints@[34]->Zero_0, row, x) == row.int[0] * expr::bits_at(row.up[21 * (2 * V - 1) + 8] as int, x),
        constraints@[35] is Zero,
        expr::eval(constraints@[35]->Zero_0, row, x) == row.int[0] * expr::bits_at(row.up[21 * (2 * V - 1) + 9] as int, x),
        constraints@[36] is Zero,
        expr::eval(constraints@[36]->Zero_0, row, x) == row.int[V + 12] * (row.int[V + 12] - 1),
        constraints@[37] is Zero,
        expr::eval(constraints@[37]->Zero_0, row, x) == row.int[V + 13] * (row.int[V + 13] - 1),
        constraints@[38] is Zero,
        expr::eval(constraints@[38]->Zero_0, row, x) == row.int[V + 12] + row.int[V + 13] - 1,
        constraints@[39] is Zero,
        expr::eval(constraints@[39]->Zero_0, row, x) == (1 - row.int[V + 12]) * (expr::bits_at(row.down[hi] as int, x) - expr::bits_at(row.up[21 * (2 * V - 1) + 8] as int, x)),
        constraints@[40] is InBaseTwoIdeal,
        expr::eval(constraints@[40]->InBaseTwoIdeal_0, row, x) == row.int[V + 12] * (expr::bits_at(row.down[hi] as int, x) - expr::bits_at(row.up[21 * (2 * V - 1) + 8] as int, x)) + row.int[V + 13] * (expr::bits_at(row.down[lo] as int, x) - expr::bits_at(row.up[21 * (2 * V - 1) + 9] as int, x)) - 1 - expr::bits_at(row.up[42 * V + 1] as int, x),
{
    let v = V as int;
    let ps = uair::polynomials(v);
    lemma_position(V, net, hi, 21 * (2 * V - 1) + 8, 1);
    lemma_position(V, net, lo, 21 * (2 * V - 1) + 9, 1);
    lemma_sorted_polynomials(v);
    assert(uair::emits(constraints@, v, ps));
    assert forall|i: int| 34 <= i < 41 implies uair::constrains(
        #[trigger] constraints@[i],
        v,
        uair::original_polynomials()[i - 34],
    ) by {
        assert(ps[i] == uair::original_polynomials()[i - 34]);
    }
}

/// The constraints on layer `l` and cell `p`: the switch of an upper row is a
/// bit, and the pair, `stride` rows apart, is swapped or kept as it says.
pub proof fn layers_are_constrained<const V: usize>(
    constraints: Vec<Constraint>,
    net: NetLayout,
    l: int,
    p: int,
    before: int,
    after: int,
    row: Row,
    x: int,
)
    requires
        3 <= V <= 16,
        call_ensures(MemoryConsistencyUair::<V>::constrain_general, (), constraints),
        call_ensures(NetLayout::new, (V,), net),
        0 <= l < 2 * V - 1,
        0 <= p < 21,
        0 <= before < net.shifts@.len(),
        0 <= after < net.shifts@.len(),
        net.shifts@[before] == ((21 * l + p) as usize, pow2((if l < V {
                V - 1 - l
            } else {
                l - V + 1
            }) as nat) as usize),
        net.shifts@[after] == ((21 * (l + 1) + p) as usize, pow2((if l < V {
                V - 1 - l
            } else {
                l - V + 1
            }) as nat) as usize),
    ensures
        ({
            let upper = row.int[1 + (if l < V {
                V - 1 - l
            } else {
                l - V + 1
            })];
            let switch = row.int[V + 14 + l];
            let in_here = expr::bits_at(row.up[21 * l + p] as int, x);
            let in_below = expr::bits_at(row.down[before] as int, x);
            let out_here = expr::bits_at(row.up[21 * (l + 1) + p] as int, x);
            let out_below = expr::bits_at(row.down[after] as int, x);
            &&& constraints@[41 + 43 * l] is Zero
            &&& expr::eval(constraints@[41 + 43 * l]->Zero_0, row, x) == upper * (switch * (switch
                - 1))
            &&& constraints@[42 + 43 * l + 2 * p] is Zero
            &&& expr::eval(constraints@[42 + 43 * l + 2 * p]->Zero_0, row, x) == upper * (out_here
                - in_here - switch * (in_below - in_here))
            &&& constraints@[43 + 43 * l + 2 * p] is Zero
            &&& expr::eval(constraints@[43 + 43 * l + 2 * p]->Zero_0, row, x) == upper * (out_below
                - in_below + switch * (in_below - in_here))
        }),
{
    let v = V as int;
    let ps = uair::polynomials(v);
    let s = benes::stride_of(v, l);
    lemma2_to64();
    lemma_pow2_pos(benes::stride_bit_of(v, l) as nat);
    if benes::stride_bit_of(v, l) < 16 {
        lemma_pow2_strictly_increases(benes::stride_bit_of(v, l) as nat, 16);
    }
    lemma_position(V, net, before, 21 * l + p, s);
    lemma_position(V, net, after, 21 * (l + 1) + p, s);
    lemma_sorted_polynomials(v);
    lemma_network_polynomials(2 * v - 1, l, p);
    assert(uair::emits(constraints@, v, ps));
    assert(ps[41 + 43 * l] == uair::Polynomial::SwitchBit(l));
    assert(ps[42 + 43 * l + 2 * p] == uair::Polynomial::UpperSwap(l, p));
    assert(ps[43 + 43 * l + 2 * p] == uair::Polynomial::LowerSwap(l, p));
    assert(uair::constrains(constraints@[41 + 43 * l], v, ps[41 + 43 * l]));
    assert(uair::constrains(constraints@[42 + 43 * l + 2 * p], v, ps[42 + 43 * l + 2 * p]));
    assert(uair::constrains(constraints@[43 + 43 * l + 2 * p], v, ps[43 + 43 * l + 2 * p]));
}

proof fn lemma_network_polynomials(n: int, l: int, p: int)
    requires
        n >= 0,
        0 <= p < 21,
    ensures
        uair::network_polynomials(n).len() == 43 * n,
        0 <= l < n ==> {
            &&& uair::network_polynomials(n)[43 * l] == uair::Polynomial::SwitchBit(l)
            &&& uair::network_polynomials(n)[43 * l + 1 + 2 * p] == uair::Polynomial::UpperSwap(l, p)
            &&& uair::network_polynomials(n)[43 * l + 2 + 2 * p] == uair::Polynomial::LowerSwap(l, p)
        },
    decreases n,
{
    if n > 0 {
        lemma_network_polynomials(n - 1, l, p);
        let swaps = uair::swap_polynomials(n - 1, 21);
        assert(swaps[2 * p] == uair::Polynomial::UpperSwap(n - 1, p));
        assert(swaps[2 * p + 1] == uair::Polynomial::LowerSwap(n - 1, p));
    }
}

/// The table that is built for a trace satisfies the system exactly when every
/// read of the trace returns the last value written to its address.
pub proof fn built_tables_satisfy_exactly_the_consistent_traces(
    records: &[TraceRecord],
    t: UairTrace,
    v: usize,
)
    requires
        call_ensures(witness::build_uair_trace, (records,), Ok((t, v))),
    ensures
        trace::satisfied(t, v as int) <==> (forall|i: int|
            0 <= i < records@.len() && !(#[trigger] records@[i])@.write ==> exists|j: int|
                {
                    &&& 0 <= j < i
                    &&& (#[trigger] records@[j])@.write
                    &&& records@[j]@.address == records@[i]@.address
                    &&& records@[j]@.value == records@[i]@.value
                    &&& forall|k: int|
                        j < k < i && (#[trigger] records@[k])@.address == records@[i]@.address
                            ==> !records@[k]@.write
                }),
{
    let o = machine::accesses(records@);
    witness::lemma_accepted(o);
    let order = choose|order: Seq<usize>| #[trigger]
        witness::sorts(order, o) && witness::is_witness(t, v as int, o, order);
    witness::witnesses_satisfy_exactly_the_consistent_traces(t, v as int, o, order);
    proofs::lemma_consistent(records@);
    assert(o[0] == records@[0]@);
}

/// In a satisfying table the rows of the last network state begin at time zero,
/// and each is later than the one before it.
pub proof fn satisfying_rows_are_in_time_order(t: UairTrace, v: usize, i: int)
    requires
        3 <= v <= 16,
        trace::satisfied(t, v as int),
        0 <= i < pow2(v as nat) - 1,
    ensures
        ({
            let hi = t.binary_poly@[21 * (2 * v - 1) + 8]@;
            let lo = t.binary_poly@[21 * (2 * v - 1) + 9]@;
            &&& hi[0] == 0
            &&& lo[0] == 0
            &&& hi[i] < hi[i + 1] || (hi[i] == hi[i + 1] && lo[i] < lo[i + 1])
        }),
{
    let vi = v as int;
    let g = 2 * vi - 1;
    trace::satisfying_traces_are_consistent(t, vi);
    trace::lemma_rows(vi);
    let o = trace::trace_of(t, vi, g);
    lemma_times(t, g, 0);
    lemma_times(t, g, i);
    lemma_times(t, g, i + 1);
    assert(o[0].time == 0);
    assert(o[i].time < o[i + 1].time);
}

proof fn lemma_times(t: UairTrace, g: int, i: int)
    ensures
        trace::access_of(trace::payload(t, g, i)).time == t.binary_poly@[21 * g + 8]@[i]
            * 0x1_0000_0000 + t.binary_poly@[21 * g + 9]@[i],
{
    let row = trace::payload(t, g, i);
    digits::lemma_two_limbs(row[8], row[9]);
    assert(row.subrange(8, 10) =~= seq![row[8], row[9]]);
}

/// In a satisfying table every row of the last network state that is not a write
/// follows a write of the same address and value, with no other write of the
/// address between the two.
pub proof fn satisfying_reads_return_the_last_write(t: UairTrace, v: usize, i: int) -> (j: int)
    requires
        3 <= v <= 16,
        trace::satisfied(t, v as int),
        0 <= i < pow2(v as nat),
        t.binary_poly@[21 * (2 * v - 1) + 20]@[i] != 1,
    ensures
        0 <= j < i,
        t.binary_poly@[21 * (2 * v - 1) + 20]@[j] == 1,
        forall|p: int|
            0 <= p < 8 ==> #[trigger] t.binary_poly@[21 * (2 * v - 1) + p]@[j]
                == t.binary_poly@[21 * (2 * v - 1) + p]@[i],
        forall|p: int|
            12 <= p < 20 ==> #[trigger] t.binary_poly@[21 * (2 * v - 1) + p]@[j]
                == t.binary_poly@[21 * (2 * v - 1) + p]@[i],
        forall|k: int|
            j < k < i && (forall|p: int|
                0 <= p < 8 ==> #[trigger] t.binary_poly@[21 * (2 * v - 1) + p]@[k]
                    == t.binary_poly@[21 * (2 * v - 1) + p]@[i]) ==> #[trigger] t.binary_poly@[21 * (2
                * v - 1) + 20]@[k] != 1,
{
    let vi = v as int;
    let g = 2 * vi - 1;
    trace::satisfying_traces_are_consistent(t, vi);
    let o = trace::trace_of(t, vi, g);
    assert(trace::payload(t, g, i)[20] == t.limb(21 * g + 20, i));
    assert(!o[i].write);
    assert(consistency::explained(o, i));
    let j = choose|j: int| #[trigger]
        consistency::last_write(o, j, i) && o[j].value == o[i].value;
    assert(trace::payload(t, g, j)[20] == t.limb(21 * g + 20, j));
    let a = trace::payload(t, g, i);
    let b = trace::payload(t, g, j);
    digits::lemma_limbs_unique(a.subrange(0, 8), b.subrange(0, 8));
    digits::lemma_limbs_unique(a.subrange(12, 20), b.subrange(12, 20));
    assert forall|p: int| 0 <= p < 8 implies #[trigger] t.binary_poly@[21 * (2 * v - 1) + p]@[j]
        == t.binary_poly@[21 * (2 * v - 1) + p]@[i] by {
        assert(a.subrange(0, 8)[p] == b.subrange(0, 8)[p]);
    }
    assert forall|p: int| 12 <= p < 20 implies #[trigger] t.binary_poly@[21 * (2 * v - 1) + p]@[j]
        == t.binary_poly@[21 * (2 * v - 1) + p]@[i] by {
        assert(a.subrange(12, 20)[p - 12] == b.subrange(12, 20)[p - 12]);
    }
    assert forall|k: int|
        j < k < i && (forall|p: int|
            0 <= p < 8 ==> #[trigger] t.binary_poly@[21 * (2 * v - 1) + p]@[k]
                == t.binary_poly@[21 * (2 * v - 1) + p]@[i]) implies #[trigger] t.binary_poly@[21 * (2
        * v - 1) + 20]@[k] != 1 by {
        let c = trace::payload(t, g, k);
        assert forall|p: int| 0 <= p < 8 implies c.subrange(0, 8)[p] == a.subrange(0, 8)[p] by {
            assert(t.binary_poly@[21 * (2 * v - 1) + p]@[k] == t.binary_poly@[21 * (2 * v - 1)
                + p]@[i]);
        }
        assert(c.subrange(0, 8) =~= a.subrange(0, 8));
        assert(o[k].address == o[i].address);
        assert(c[20] == t.limb(21 * g + 20, k));
    }
    j
}

/// The degree of an expression is that of the polynomial that it writes.
pub proof fn degrees_are_those_of_polynomials(a: Expr, b: Expr, c: usize)
    ensures
        expr::degree(Expr::One) == 0,
        expr::degree(Expr::UpBinary(c)) == 1,
        expr::degree(Expr::UpInt(c)) == 1,
        expr::degree(Expr::DownBinary(c)) == 1,
        expr::degree(Expr::Mul(Box::new(a), Box::new(b))) == expr::degree(a) + expr::degree(b),
        expr::degree(Expr::Add(Box::new(a), Box::new(b))) == if expr::degree(a) < expr::degree(b) {
            expr::degree(b)
        } else {
            expr::degree(a)
        },
        expr::degree(Expr::Sub(Box::new(a), Box::new(b))) == if expr::degree(a) < expr::degree(b) {
            expr::degree(b)
        } else {
            expr::degree(a)
        },
{
}

/// No constraint has a degree above three, and outside the network none has one
/// above two.
pub proof fn constraints_have_low_degree<const V: usize>(constraints: Vec<Constraint>, c: int)
    requires
        3 <= V <= 16,
        call_ensures(MemoryConsistencyUair::<V>::constrain_general, (), constraints),
        0 <= c < constraints@.len(),
    ensures
        match constraints@[c] {
            Constraint::Zero(e) => expr::degree(e) <= 3 && (c < 41 ==> expr::degree(e) <= 2),
            Constraint::InBaseTwoIdeal(e) => expr::degree(e) <= 2,
        },
{
    let v = V as int;
    lemma_sorted_polynomials(v);
    let p = uair::polynomials(v)[c];
    assert(uair::constrains(constraints@[c], v, p));
    if c < 34 {
        assert(p == uair::sorted_polynomials()[c]);
        if 2 <= c < 12 {
            assert(p == uair::sorted_polynomials()[2 + (c - 2)]);
        }
        if 25 <= c < 33 {
            assert(p == uair::sorted_polynomials()[25 + (c - 25)]);
        }
    } else if c < 41 {
        assert(p == uair::original_polynomials()[c - 34]);
    }
}

/// Columns, strides and shifts are looked up in a layout: the column of each cell
/// of each state, the stride of each layer, and the place of each shift.
pub proof fn layouts_are_looked_up(
    v: usize,
    net: NetLayout,
    g: usize,
    p: usize,
    l: usize,
    k: int,
    original: usize,
    column: usize,
    stride: usize,
    place: usize,
)
    requires
        3 <= v <= 16,
        call_ensures(NetLayout::new, (v,), net),
        g < 2 * v,
        p < 21,
        l < 2 * v - 1,
        0 <= k < net.shifts@.len(),
        call_ensures(NetLayout::original_state, (&net,), original),
        call_ensures(NetLayout::state_col, (&net, g, p), column),
        call_ensures(NetLayout::stride, (&net, l), stride),
        call_ensures(NetLayout::down_idx, (&net, net.shifts@[k].0, net.shifts@[k].1), place),
    ensures
        call_requires(NetLayout::original_state, (&net,)),
        call_requires(NetLayout::state_col, (&net, g, p)),
        call_requires(NetLayout::stride, (&net, l)),
        call_requires(NetLayout::down_idx, (&net, net.shifts@[k].0, net.shifts@[k].1)),
        original == 2 * v - 1,
        column == 21 * g + p,
        stride == pow2(
            (if l < v {
                v - 1 - l
            } else {
                l - v + 1
            }) as nat,
        ),
        place == k,
{
    let pair = net.shifts@[k];
    assert(layout::shift_list(v as int).contains(pair));
    assert(net.shifts@[place as int] == pair);
    if place < k {
        shifts_increase(v, net, place as int, k);
    } else if k < place {
        shifts_increase(v, net, k, place as int);
    }
}

} // verus!
