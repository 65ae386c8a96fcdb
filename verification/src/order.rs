//! Sorting execution traces by address and time.

use crate::consistency;
use crate::machine;
use crate::machine::{Access, TraceRecord};
use crate::perm;
use vstd::prelude::*;

verus! {

/// Position `a` of the trace comes before position `b` in the stable order by
/// address, then by time.
pub open spec fn comes_before(t: Seq<Access>, a: int, b: int) -> bool {
    consistency::precedes(t[a], t[b]) || (!consistency::precedes(t[b], t[a]) && a < b)
}

/// The positions are listed in the stable order by address, then by time.
pub open spec fn in_order(t: Seq<Access>, order: Seq<usize>) -> bool {
    forall|i: int, j: int|
        0 <= i < j < order.len() ==> comes_before(
            t,
            #[trigger] order[i] as int,
            #[trigger] order[j] as int,
        )
}

fn position_before(trace: &[TraceRecord], a: usize, b: usize) -> (before: bool)
    requires
        a < trace@.len(),
        b < trace@.len(),
    ensures
        before == comes_before(machine::accesses(trace@), a as int, b as int),
{
    let x = trace[a].address();
    let y = trace[b].address();
    if x.less_than(&y) {
        return true;
    }
    if y.less_than(&x) {
        return false;
    }
    let s: u64 = trace[a].time_log();
    let t: u64 = trace[b].time_log();
    s < t || (s == t && a < b)
}

/// Merge two runs of positions, the second after the first in the trace.
fn merge(trace: &[TraceRecord], left: &Vec<usize>, right: &Vec<usize>) -> (out: Vec<usize>)
    requires
        forall|i: int| 0 <= i < left@.len() ==> (#[trigger] left@[i]) < trace@.len(),
        forall|i: int| 0 <= i < right@.len() ==> (#[trigger] right@[i]) < trace@.len(),
        forall|i: int, j: int|
            0 <= i < left@.len() && 0 <= j < right@.len() ==> (#[trigger] left@[i]) < (
            #[trigger] right@[j]),
        left@.len() + right@.len() <= usize::MAX,
        in_order(machine::accesses(trace@), left@),
        in_order(machine::accesses(trace@), right@),
    ensures
        out@.len() == left@.len() + right@.len(),
        in_order(machine::accesses(trace@), out@),
        forall|k: int|
            0 <= k < out@.len() ==> left@.contains(#[trigger] out@[k]) || right@.contains(out@[k]),
{
    let ghost t = machine::accesses(trace@);
    let mut out: Vec<usize> = Vec::new();
    let mut i: usize = 0;
    let mut j: usize = 0;
    while i < left.len() || j < right.len()
        invariant
            i <= left@.len(),
            j <= right@.len(),
            t == machine::accesses(trace@),
            left@.len() + right@.len() <= usize::MAX,
            out@.len() == i + j,
            forall|k: int| 0 <= k < left@.len() ==> (#[trigger] left@[k]) < trace@.len(),
            forall|k: int| 0 <= k < right@.len() ==> (#[trigger] right@[k]) < trace@.len(),
            forall|k: int, l: int|
                0 <= k < left@.len() && 0 <= l < right@.len() ==> (#[trigger] left@[k]) < (
                #[trigger] right@[l]),
            in_order(t, left@),
            in_order(t, right@),
            in_order(t, out@),
            forall|k: int|
                0 <= k < out@.len() ==> left@.contains(#[trigger] out@[k]) || right@.contains(
                    out@[k],
                ),
            forall|k: int, l: int|
                0 <= k < out@.len() && i <= l < left@.len() ==> comes_before(
                    t,
                    #[trigger] out@[k] as int,
                    #[trigger] left@[l] as int,
                ),
            forall|k: int, l: int|
                0 <= k < out@.len() && j <= l < right@.len() ==> comes_before(
                    t,
                    #[trigger] out@[k] as int,
                    #[trigger] right@[l] as int,
                ),
        decreases left@.len() + right@.len() - i - j,
    {
        let take_left: bool = if i == left.len() {
            false
        } else if j == right.len() {
            true
        } else {
            position_before(trace, left[i], right[j])
        };
        if take_left {
            let x: usize = left[i];
            proof {
                assert(left@.contains(left@[i as int]));
                assert forall|l: int| j <= l < right@.len() implies comes_before(
                    t,
                    x as int,
                    #[trigger] right@[l] as int,
                ) by {
                    if l > j {
                        assert(comes_before(t, right@[j as int] as int, right@[l] as int));
                    }
                }
            }
            out.push(x);
            i = i + 1;
        } else {
            let x: usize = right[j];
            proof {
                assert(right@.contains(right@[j as int]));
                assert forall|l: int| i <= l < left@.len() implies comes_before(
                    t,
                    x as int,
                    #[trigger] left@[l] as int,
                ) by {
                    assert(left@[i as int] < right@[j as int]);
                    if l > i {
                        assert(comes_before(t, left@[i as int] as int, left@[l] as int));
                    }
                }
            }
            out.push(x);
            j = j + 1;
        }
    }
    out
}

/// The positions `low..high` of the trace in order.
fn sort_range(trace: &[TraceRecord], low: usize, high: usize) -> (out: Vec<usize>)
    requires
        low <= high <= trace@.len(),
    ensures
        out@.len() == high - low,
        in_order(machine::accesses(trace@), out@),
        forall|k: int| 0 <= k < out@.len() ==> low <= (#[trigger] out@[k]) < high,
    decreases high - low,
{
    if high - low <= 1 {
        let mut out: Vec<usize> = Vec::new();
        if low < high {
            out.push(low);
        }
        return out;
    }
    let middle: usize = low + (high - low) / 2;
    let left = sort_range(trace, low, middle);
    let right = sort_range(trace, middle, high);
    let out = merge(trace, &left, &right);
    proof {
        assert forall|k: int| 0 <= k < out@.len() implies low <= (#[trigger] out@[k]) < high by {
            if left@.contains(out@[k]) {
                let i = choose|i: int| 0 <= i < left@.len() && left@[i] == out@[k];
                assert(left@[i] < middle);
            } else {
                let i = choose|i: int| 0 <= i < right@.len() && right@[i] == out@[k];
                assert(right@[i] < high);
            }
        }
    }
    out
}

/// The positions of a trace by address, then by time; accesses that agree in
/// both stay in the order of the trace.
pub fn sort_order(trace: &[TraceRecord]) -> (order: Vec<usize>)
    ensures
        order@.len() == trace@.len(),
        perm::is_permutation(order@),
        in_order(machine::accesses(trace@), order@),
{
    let order = sort_range(trace, 0, trace.len());
    proof {
        let t = machine::accesses(trace@);
        assert forall|i: int, j: int|
            0 <= i < order@.len() && 0 <= j < order@.len() && i != j implies #[trigger] order@[i]
            != #[trigger] order@[j] by {
            if i < j {
                assert(comes_before(t, order@[i] as int, order@[j] as int));
            } else {
                assert(comes_before(t, order@[j] as int, order@[i] as int));
            }
        }
    }
    order
}

/// The records at the listed positions.
pub fn reordered(trace: &[TraceRecord], order: &Vec<usize>) -> (out: Vec<TraceRecord>)
    requires
        forall|i: int| 0 <= i < order@.len() ==> (#[trigger] order@[i]) < trace@.len(),
    ensures
        out@ == perm::permuted(trace@, order@),
{
    let mut out: Vec<TraceRecord> = Vec::new();
    let mut i: usize = 0;
    while i < order.len()
        invariant
            i <= order@.len(),
            forall|k: int| 0 <= k < order@.len() ==> (#[trigger] order@[k]) < trace@.len(),
            out@.len() == i,
            forall|k: int| 0 <= k < i ==> #[trigger] out@[k] == trace@[order@[k] as int],
        decreases order@.len() - i,
    {
        let from: usize = order[i];
        out.push(trace[from]);
        i = i + 1;
    }
    assert(out@ =~= perm::permuted(trace@, order@));
    out
}

/// A trace listed in order is a rearrangement of the trace, strictly sorted
/// when times increase along the trace.
pub proof fn lemma_sorted_rearrangement(t: Seq<Access>, order: Seq<usize>)
    requires
        order.len() == t.len(),
        perm::is_permutation(order),
        in_order(t, order),
    ensures
        consistency::rearranged(perm::permuted(t, order), t),
        consistency::time_increases(t) ==> consistency::sorted(perm::permuted(t, order)),
{
    perm::lemma_permuted_multiset(t, order);
    let s = perm::permuted(t, order);
    if consistency::time_increases(t) {
        assert forall|i: int, j: int| 0 <= i < j < s.len() implies consistency::precedes(
            #[trigger] s[i],
            #[trigger] s[j],
        ) by {
            let a = order[i] as int;
            let b = order[j] as int;
            assert(order[i] < order.len() && order[j] < order.len());
            assert(comes_before(t, a, b));
            if a < b {
                assert(t[a].time < t[b].time);
            }
        }
    }
}

} // verus!
