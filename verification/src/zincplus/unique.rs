//! The trace that is built for an execution trace is determined by it.

use crate::machine;
use crate::machine::{Access, TraceRecord};
use crate::order;
use crate::perm;
use crate::zincplus::error::ZincMemoryError;
use crate::zincplus::layout;
use crate::zincplus::layout::NUM_LEX_LIMBS;
use crate::zincplus::limbs;
use crate::zincplus::trace;
use crate::zincplus::trace::UairTrace;
use crate::zincplus::uair;
use crate::zincplus::witness;
use vstd::arithmetic::power2::*;
use vstd::prelude::*;

verus! {

/// Two traces on `2^v` rows hold the same cells.
pub open spec fn same_cells(a: UairTrace, b: UairTrace, v: int) -> bool {
    &&& trace::shaped(a, v)
    &&& trace::shaped(b, v)
    &&& forall|c: int, i: int|
        0 <= c < layout::num_bp(v) && 0 <= i < pow2(v as nat) ==> #[trigger] a.limb(c, i)
            == b.limb(c, i)
    &&& forall|c: int, i: int|
        0 <= c < layout::num_int(v) && 0 <= i < pow2(v as nat) ==> #[trigger] a.cell(c, i)
            == b.cell(c, i)
}

proof fn lemma_orders_agree(o: Seq<Access>, p: Seq<usize>, q: Seq<usize>, i: int)
    requires
        witness::sorts(p, o),
        witness::sorts(q, o),
        0 <= i < o.len(),
    ensures
        forall|k: int| 0 <= k <= i ==> #[trigger] p[k] == q[k],
    decreases i,
{
    if i > 0 {
        lemma_orders_agree(o, p, q, i - 1);
    }
    if p[i] != q[i] {
        assert(p[i] < p.len());
        assert(q[i] < q.len());
        let j = perm::lemma_permutation_reaches(q, p[i] as int);
        let k = perm::lemma_permutation_reaches(p, q[i] as int);
        if j < i {
            assert(p[j] == q[j]);
        }
        if k < i {
            assert(p[k] == q[k]);
        }
        assert(order::comes_before(o, q[i] as int, q[j] as int));
        assert(order::comes_before(o, p[i] as int, p[k] as int));
    }
}

/// An execution trace has one order by address, then by time, in which accesses
/// that tie stay as they were.
pub proof fn orders_are_unique(o: Seq<Access>, p: Seq<usize>, q: Seq<usize>)
    requires
        witness::sorts(p, o),
        witness::sorts(q, o),
    ensures
        p == q,
{
    if o.len() > 0 {
        lemma_orders_agree(o, p, q, o.len() - 1);
    }
    assert(p =~= q);
}

/// The network states agree.
proof fn lemma_states_agree(
    a: UairTrace,
    b: UairTrace,
    v: int,
    o: Seq<Access>,
    order: Seq<usize>,
    g: int,
)
    requires
        layout::supported(v),
        witness::is_witness(a, v, o, order),
        witness::is_witness(b, v, o, order),
        0 <= g < 2 * v,
    ensures
        trace::state(a, v, g) == trace::state(b, v, g),
    decreases g,
{
    let n = pow2(v as nat) as int;
    if g == 0 {
        assert forall|i: int| 0 <= i < n implies trace::state(a, v, 0)[i] == trace::state(
            b,
            v,
            0,
        )[i] by {
            limbs::lemma_encoding_unique(
                trace::payload(a, 0, i),
                trace::payload(b, 0, i),
                witness::padded_sorted(o, order, n)[i],
            );
        }
        assert(trace::state(a, v, 0) =~= trace::state(b, v, 0));
    } else {
        let l = g - 1;
        lemma_states_agree(a, b, v, o, order, l);
        lemma_framed_layers(a, v, o, order, l);
        lemma_framed_layers(b, v, o, order, l);
        trace::lemma_layer_out(a, v, l);
        trace::lemma_layer_out(b, v, l);
        assert forall|i: int| 0 <= i < n implies trace::switch_bits(a, v, l)[i]
            == trace::switch_bits(b, v, l)[i] by {
            assert(a.cell(layout::switch_col(v, l), i) == b.cell(layout::switch_col(v, l), i));
        }
        assert(trace::switch_bits(a, v, l) =~= trace::switch_bits(b, v, l));
    }
}

pub proof fn lemma_framed_layers(t: UairTrace, v: int, o: Seq<Access>, order: Seq<usize>, l: int)
    requires
        witness::is_witness(t, v, o, order),
        0 <= l < 2 * v - 1,
    ensures
        forall|i: int|
            0 <= i < pow2(v as nat) - 1 ==> uair::layer_ok(v, #[trigger] trace::row_at(t, v, i), l),
{
    assert forall|i: int| 0 <= i < pow2(v as nat) - 1 implies uair::layer_ok(
        v,
        #[trigger] trace::row_at(t, v, i),
        l,
    ) by {
        assert(witness::framed(v, trace::row_at(t, v, i)));
    }
}

/// The limbs that the rules of a row read in the first and the last state.
pub proof fn lemma_row_limbs(t: UairTrace, v: int, i: int)
    requires
        layout::supported(v),
        0 <= i < pow2(v as nat) - 1,
    ensures
        forall|j: int|
            0 <= j < 10 ==> #[trigger] uair::here(trace::row_at(t, v, i), 0, j) == trace::payload(
                t,
                0,
                i,
            )[j],
        forall|j: int|
            0 <= j < 10 || j == 20 ==> #[trigger] uair::below(v, trace::row_at(t, v, i), 0, j, 1)
                == trace::payload(t, 0, i + 1)[j],
        forall|j: int|
            8 <= j < 10 ==> #[trigger] uair::here(trace::row_at(t, v, i), 2 * v - 1, j)
                == trace::payload(t, 2 * v - 1, i)[j],
        forall|j: int|
            8 <= j < 10 ==> #[trigger] uair::below(v, trace::row_at(t, v, i), 2 * v - 1, j, 1)
                == trace::payload(t, 2 * v - 1, i + 1)[j],
{
    let row = trace::row_at(t, v, i);
    assert forall|j: int| 0 <= j < 10 implies #[trigger] uair::here(row, 0, j) == trace::payload(
        t,
        0,
        i,
    )[j] by {
        trace::lemma_cells(t, v, i, 0, j);
    }
    assert forall|j: int| 0 <= j < 10 || j == 20 implies #[trigger] uair::below(v, row, 0, j, 1)
        == trace::payload(t, 0, i + 1)[j] by {
        trace::lemma_cells(t, v, i, 0, j);
        assert(layout::read_below(v, 0, j, 1));
    }
    assert forall|j: int| 8 <= j < 10 implies #[trigger] uair::here(row, 2 * v - 1, j)
        == trace::payload(t, 2 * v - 1, i)[j] by {
        trace::lemma_cells(t, v, i, 2 * v - 1, j);
    }
    assert forall|j: int| 8 <= j < 10 implies #[trigger] uair::below(v, row, 2 * v - 1, j, 1)
        == trace::payload(t, 2 * v - 1, i + 1)[j] by {
        trace::lemma_cells(t, v, i, 2 * v - 1, j);
        assert(layout::read_below(v, 2 * v - 1, j, 1));
    }
}

/// The selectors, the helper and the slacks of row `i` agree.
proof fn lemma_steps_agree(
    a: UairTrace,
    b: UairTrace,
    v: int,
    o: Seq<Access>,
    order: Seq<usize>,
    i: int,
)
    requires
        layout::supported(v),
        witness::is_witness(a, v, o, order),
        witness::is_witness(b, v, o, order),
        0 <= i < pow2(v as nat),
    ensures
        forall|c: int|
            layout::selector_col(v, 0) <= c < layout::switch_col(v, 0) ==> #[trigger] a.cell(c, i)
                == b.cell(c, i),
        a.limb(layout::slack_sorted(v), i) == b.limb(layout::slack_sorted(v), i),
        a.limb(layout::slack_original(v), i) == b.limb(layout::slack_original(v), i),
{
    let n = pow2(v as nat) as int;
    let x = trace::row_at(a, v, i);
    let y = trace::row_at(b, v, i);
    if i == n - 1 {
        assert forall|c: int|
            layout::selector_col(v, 0) <= c < layout::switch_col(v, 0) implies #[trigger] a.cell(
            c,
            i,
        ) == b.cell(c, i) by {
            assert(x.int[c] == 0);
            assert(y.int[c] == 0);
        }
    } else {
        assert(witness::framed(v, x));
        assert(witness::framed(v, y));
        let k = choose|k: int| 0 <= k < NUM_LEX_LIMBS && #[trigger] uair::key_step(v, x, k);
        let m = choose|k: int| 0 <= k < NUM_LEX_LIMBS && #[trigger] uair::key_step(v, y, k);
        lemma_row_limbs(a, v, i);
        lemma_row_limbs(b, v, i);
        lemma_states_agree(a, b, v, o, order, 0);
        lemma_states_agree(a, b, v, o, order, 2 * v - 1);
        assert(trace::state(a, v, 0)[i] == trace::state(b, v, 0)[i]);
        assert(trace::state(a, v, 0)[i + 1] == trace::state(b, v, 0)[i + 1]);
        assert(trace::state(a, v, 2 * v - 1)[i] == trace::state(b, v, 2 * v - 1)[i]);
        assert(trace::state(a, v, 2 * v - 1)[i + 1] == trace::state(b, v, 2 * v - 1)[i + 1]);
        assert(uair::below(v, x, 0, k, 1) == uair::below(v, y, 0, k, 1));
        assert(uair::here(x, 0, k) == uair::here(y, 0, k));
        assert(uair::below(v, x, 0, m, 1) == uair::below(v, y, 0, m, 1));
        assert(uair::here(x, 0, m) == uair::here(y, 0, m));
        assert(k == m);
        assert(uair::below(v, x, 0, 20, 1) == uair::below(v, y, 0, 20, 1));
        assert(uair::below(v, x, 2 * v - 1, 8, 1) == uair::below(v, y, 2 * v - 1, 8, 1));
        assert(uair::below(v, x, 2 * v - 1, 9, 1) == uair::below(v, y, 2 * v - 1, 9, 1));
        assert(uair::here(x, 2 * v - 1, 8) == uair::here(y, 2 * v - 1, 8));
        assert(uair::here(x, 2 * v - 1, 9) == uair::here(y, 2 * v - 1, 9));
        assert(uair::time_step(v, x) && uair::time_step(v, y));
        assert(x.up[layout::slack_sorted(v)] == a.limb(layout::slack_sorted(v), i));
        assert(y.up[layout::slack_sorted(v)] == b.limb(layout::slack_sorted(v), i));
        assert(x.up[layout::slack_original(v)] == a.limb(layout::slack_original(v), i));
        assert(y.up[layout::slack_original(v)] == b.limb(layout::slack_original(v), i));
        assert forall|c: int|
            layout::selector_col(v, 0) <= c < layout::switch_col(v, 0) implies #[trigger] a.cell(
            c,
            i,
        ) == b.cell(c, i) by {
            assert(x.int[c] == a.cell(c, i));
            assert(y.int[c] == b.cell(c, i));
            if c < layout::helper_col(v) {
                let j = c - layout::selector_col(v, 0);
                assert(uair::selector(v, x, j) == uair::selector(v, y, j));
            } else if c == layout::helper_col(v) {
                assert(uair::helper(v, x) == uair::helper(v, y));
            }
        }
    }
}

/// An execution trace has one trace of the constraint system on `2^v` rows: all
/// traces that are built for it hold the same cells.
pub proof fn witnesses_are_unique(a: UairTrace, b: UairTrace, v: int, o: Seq<Access>)
    requires
        layout::supported(v),
        witness::witnesses(a, v, o),
        witness::witnesses(b, v, o),
    ensures
        same_cells(a, b, v),
{
    let n = pow2(v as nat) as int;
    let order = choose|order: Seq<usize>| #[trigger]
        witness::sorts(order, o) && witness::is_witness(a, v, o, order);
    let other = choose|order: Seq<usize>| #[trigger]
        witness::sorts(order, o) && witness::is_witness(b, v, o, order);
    orders_are_unique(o, order, other);
    assert forall|c: int, i: int| 0 <= c < layout::num_bp(v) && 0 <= i < n implies #[trigger] a.limb(
        c,
        i,
    ) == b.limb(c, i) by {
        if c < 42 * v {
            let g = c / 21;
            let p = c % 21;
            lemma_states_agree(a, b, v, o, order, g);
            assert(c == layout::col(g, p));
            assert(trace::state(a, v, g)[i] == trace::state(b, v, g)[i]);
            assert(trace::payload(a, g, i)[p] == trace::payload(b, g, i)[p]);
        } else {
            lemma_steps_agree(a, b, v, o, order, i);
        }
    }
    assert forall|c: int, i: int|
        0 <= c < layout::num_int(v) && 0 <= i < n implies #[trigger] a.cell(c, i) == b.cell(c, i) by {
        if c <= v {
            assert(a.cell(c, i) == trace::public_cell(c, i));
            assert(b.cell(c, i) == trace::public_cell(c, i));
        } else if c < layout::switch_col(v, 0) {
            lemma_steps_agree(a, b, v, o, order, i);
        } else {
            let l = c - layout::switch_col(v, 0);
            assert(c == layout::switch_col(v, l));
            assert(a.cell(layout::switch_col(v, l), i) == b.cell(layout::switch_col(v, l), i));
        }
    }
}

/// Two results of building a trace are the same: the same error, or the same
/// exponent and the same cells.
pub open spec fn same_result(
    x: Result<(UairTrace, usize), ZincMemoryError>,
    y: Result<(UairTrace, usize), ZincMemoryError>,
) -> bool {
    match (x, y) {
        (Ok((a, v)), Ok((b, w))) => v == w && same_cells(a, b, v as int),
        (Err(e), Err(f)) => e == f,
        _ => false,
    }
}

/// A trace that is empty or starts at time zero is built the same by both
/// builders. Any other is refused by the one that asks for a start at time zero,
/// for its first time and whatever else is wrong with it, and only such a one is
/// refused for that.
pub proof fn builders_differ_on_the_first_time_only(
    records: &[TraceRecord],
    strict: Result<(UairTrace, usize), ZincMemoryError>,
    any_start: Result<(UairTrace, usize), ZincMemoryError>,
)
    requires
        call_ensures(witness::build_uair_trace, (records,), strict),
        call_ensures(witness::build_uair_trace_any_start, (records,), any_start),
    ensures
        records@.len() == 0 || records@[0]@.time == 0 ==> same_result(strict, any_start),
        records@.len() > 0 && records@[0]@.time != 0 ==> strict == Err::<
            (UairTrace, usize),
            ZincMemoryError,
        >(ZincMemoryError::FirstTimeNonZero { time_log: records@[0]@.time as u64 }),
        (strict matches Err(e) && e is FirstTimeNonZero) <==> records@.len() > 0
            && records@[0]@.time != 0,
{
    let o = machine::accesses(records@);
    assert(o.len() == records@.len());
    if o.len() > 0 {
        assert(o[0] == records@[0]@);
    }
    if witness::rejection(o) is None {
        witness::lemma_accepted(o);
        if witness::input_rejection(o) is None {
            witnesses_are_unique(strict->Ok_0.0, any_start->Ok_0.0, strict->Ok_0.1 as int, o);
        }
    }
}

/// Building a trace twice gives the same result.
pub proof fn building_is_determined(
    records: &[TraceRecord],
    x: Result<(UairTrace, usize), ZincMemoryError>,
    y: Result<(UairTrace, usize), ZincMemoryError>,
)
    requires
        call_ensures(witness::build_uair_trace_any_start, (records,), x),
        call_ensures(witness::build_uair_trace_any_start, (records,), y),
    ensures
        same_result(x, y),
{
    let o = machine::accesses(records@);
    if witness::rejection(o) is None {
        witness::lemma_accepted(o);
        witnesses_are_unique(x->Ok_0.0, y->Ok_0.0, x->Ok_0.1 as int, o);
    }
}

} // verus!
