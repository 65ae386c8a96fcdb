//! What it means for an execution trace to access memory consistently.

use crate::machine::Access;
use vstd::prelude::*;
use vstd::seq_lib::*;

verus! {

/// `a` precedes `b` in the order by address, then by time.
pub open spec fn precedes(a: Access, b: Access) -> bool {
    a.address < b.address || (a.address == b.address && a.time < b.time)
}

/// Times strictly increase along the trace.
pub open spec fn time_increases(o: Seq<Access>) -> bool {
    forall|i: int, j: int| 0 <= i < j < o.len() ==> (#[trigger] o[i]).time < (#[trigger] o[j]).time
}

/// A trace in execution order: it starts at time zero and time increases.
pub open spec fn time_ordered(o: Seq<Access>) -> bool {
    &&& o.len() > 0
    &&& o[0].time == 0
    &&& time_increases(o)
}

/// The trace is strictly sorted by address, then by time.
pub open spec fn sorted(s: Seq<Access>) -> bool {
    forall|i: int, j: int| 0 <= i < j < s.len() ==> precedes(#[trigger] s[i], #[trigger] s[j])
}

/// Two accesses that follow each other in a sorted trace agree: the first
/// access to an address is a write, and a read returns the value before it.
pub open spec fn step_consistent(a: Access, b: Access) -> bool {
    &&& b.address != a.address ==> b.write
    &&& b.address == a.address && !b.write ==> b.value == a.value
}

/// A sorted trace is consistent: it starts with a write and each access agrees
/// with the one before it.
pub open spec fn sorted_consistent(s: Seq<Access>) -> bool {
    &&& s.len() > 0 ==> s[0].write
    &&& sorted(s)
    &&& forall|i: int| 0 <= i < s.len() - 1 ==> step_consistent(#[trigger] s[i], s[i + 1])
}

/// Access `j` is the last write to the address of access `i` before `i`.
pub open spec fn last_write(o: Seq<Access>, j: int, i: int) -> bool {
    &&& 0 <= j < i
    &&& o[j].write
    &&& o[j].address == o[i].address
    &&& forall|k: int| j < k < i && (#[trigger] o[k]).address == o[i].address ==> !o[k].write
}

/// Access `i` is explained: it is a write, or it returns the last value
/// written to its address.
pub open spec fn explained(o: Seq<Access>, i: int) -> bool {
    o[i].write || exists|j: int| #[trigger] last_write(o, j, i) && o[j].value == o[i].value
}

/// Every read returns the last value written to its address.
pub open spec fn memory_consistent(o: Seq<Access>) -> bool {
    forall|i: int| 0 <= i < o.len() ==> #[trigger] explained(o, i)
}

/// `s` and `o` hold the same accesses, each the same number of times.
pub open spec fn rearranged(s: Seq<Access>, o: Seq<Access>) -> bool {
    s.to_multiset() == o.to_multiset()
}

/// The statement that is proved of a trace in execution order: it starts at
/// time zero, time increases, and every read returns the last value written.
pub open spec fn statement(o: Seq<Access>) -> bool {
    time_ordered(o) && memory_consistent(o)
}

/// What one of two rearranged traces holds, the other holds somewhere.
proof fn lemma_elsewhere(s: Seq<Access>, o: Seq<Access>, i: int) -> (j: int)
    requires
        rearranged(s, o),
        0 <= i < s.len(),
    ensures
        0 <= j < o.len(),
        o[j] == s[i],
{
    s.to_multiset_ensures();
    o.to_multiset_ensures();
    assert(s.contains(s[i]));
    assert(s.to_multiset().count(s[i]) > 0);
    assert(o.contains(s[i]));
    choose|j: int| 0 <= j < o.len() && o[j] == s[i]
}

/// The write that a consistent sorted trace takes the value at `p` from.
proof fn lemma_block_write(s: Seq<Access>, p: int) -> (q: int)
    requires
        sorted_consistent(s),
        0 <= p < s.len(),
    ensures
        0 <= q <= p,
        s[q].write,
        s[q].address == s[p].address,
        s[q].value == s[p].value,
        forall|k: int| q < k <= p ==> !(#[trigger] s[k]).write,
    decreases p,
{
    if s[p].write {
        p
    } else {
        assert(p > 0);
        assert(step_consistent(s[p - 1], s[p - 1 + 1]));
        lemma_block_write(s, p - 1)
    }
}

proof fn lemma_sorted_gives_memory(s: Seq<Access>, o: Seq<Access>)
    requires
        time_increases(o),
        rearranged(s, o),
        sorted_consistent(s),
    ensures
        memory_consistent(o),
{
    assert forall|i: int| 0 <= i < o.len() implies #[trigger] explained(o, i) by {
        if !o[i].write {
            let p = lemma_elsewhere(o, s, i);
            let q = lemma_block_write(s, p);
            assert(q < p);
            assert(precedes(s[q], s[p]));
            let j = lemma_elsewhere(s, o, q);
            assert(o[j].time < o[i].time);
            assert(j < i) by {
                if j > i {
                    assert(o[i].time < o[j].time);
                }
            }
            assert forall|k: int|
                j < k < i && (#[trigger] o[k]).address == o[i].address implies !o[k].write by {
                let m = lemma_elsewhere(o, s, k);
                assert(o[j].time < o[k].time);
                assert(o[k].time < o[i].time);
                assert(m > q) by {
                    if m < q {
                        assert(precedes(s[m], s[q]));
                    }
                }
                assert(m < p) by {
                    if m > p {
                        assert(precedes(s[p], s[m]));
                    }
                }
                assert(!s[m].write);
            }
            assert(last_write(o, j, i));
        }
    }
}

proof fn lemma_memory_gives_sorted(s: Seq<Access>, o: Seq<Access>)
    requires
        time_increases(o),
        rearranged(s, o),
        sorted(s),
        memory_consistent(o),
    ensures
        sorted_consistent(s),
{
    if s.len() > 0 && !s[0].write {
        let i = lemma_elsewhere(s, o, 0);
        assert(explained(o, i));
        let j = choose|j: int| #[trigger] last_write(o, j, i) && o[j].value == o[i].value;
        let q = lemma_elsewhere(o, s, j);
        assert(o[j].time < o[i].time);
        if q > 0 {
            assert(precedes(s[0], s[q]));
        }
        assert(false);
    }
    assert forall|p: int| 0 <= p < s.len() - 1 implies step_consistent(
        #[trigger] s[p],
        s[p + 1],
    ) by {
        if !s[p + 1].write {
            assert(precedes(s[p], s[p + 1]));
            let b = lemma_elsewhere(s, o, p + 1);
            assert(explained(o, b));
            let j = choose|j: int| #[trigger] last_write(o, j, b) && o[j].value == o[b].value;
            let q = lemma_elsewhere(o, s, j);
            assert(o[j].time < o[b].time);
            assert(q <= p) by {
                if q > p + 1 {
                    assert(precedes(s[p + 1], s[q]));
                }
            }
            // Both neighbours lie between the write and the read.
            if q < p {
                assert(precedes(s[q], s[p]));
            }
            assert(s[p].address == s[p + 1].address);
            let c = lemma_elsewhere(s, o, p);
            assert(c < b) by {
                if c > b {
                    assert(o[b].time < o[c].time);
                }
            }
            assert(c >= j) by {
                if c < j {
                    assert(o[c].time < o[j].time);
                }
            }
            if c != j {
                assert(!o[c].write);
                assert(explained(o, c));
                let m = choose|m: int| #[trigger] last_write(o, m, c) && o[m].value == o[c].value;
                assert(m == j) by {
                    if m < j {
                        assert(o[j].address == o[c].address);
                    } else if m > j {
                        assert(o[m].address == o[b].address);
                    }
                }
            }
        }
    }
}

/// The sorted rearrangement of a trace is consistent exactly when every read
/// of the trace returns the last value written to its address.
pub proof fn sorting_decides_consistency(s: Seq<Access>, o: Seq<Access>)
    requires
        time_increases(o),
        rearranged(s, o),
        sorted(s),
    ensures
        sorted_consistent(s) <==> memory_consistent(o),
{
    if sorted_consistent(s) {
        lemma_sorted_gives_memory(s, o);
    }
    if memory_consistent(o) {
        lemma_memory_gives_sorted(s, o);
    }
}

/// Access `j` is the latest access to the address of access `i` before `i`.
pub open spec fn latest_access(o: Seq<Access>, j: int, i: int) -> bool {
    &&& 0 <= j < i
    &&& o[j].address == o[i].address
    &&& forall|k: int| j < k < i ==> (#[trigger] o[k]).address != o[i].address
}

/// Access `i` follows on: it is a write, or it has the value of the latest
/// earlier access to its address.
pub open spec fn follows_on(o: Seq<Access>, i: int) -> bool {
    o[i].write || exists|j: int| #[trigger] latest_access(o, j, i) && o[j].value == o[i].value
}

/// The latest earlier access to the address of access `i`, where there is one.
proof fn lemma_latest_access(o: Seq<Access>, from: int, i: int) -> (j: int)
    requires
        0 <= from < i < o.len(),
        o[from].address == o[i].address,
    ensures
        from <= j < i,
        latest_access(o, j, i),
    decreases i - from,
{
    if exists|k: int| from < k < i && (#[trigger] o[k]).address == o[i].address {
        let k = choose|k: int| from < k < i && (#[trigger] o[k]).address == o[i].address;
        lemma_latest_access(o, k, i)
    } else {
        from
    }
}

/// A read that follows on from reads that do returns the last value written.
proof fn lemma_follows_back(o: Seq<Access>, i: int)
    requires
        0 <= i < o.len(),
        forall|k: int| 0 <= k < o.len() ==> #[trigger] follows_on(o, k),
    ensures
        explained(o, i),
    decreases i,
{
    if !o[i].write {
        assert(follows_on(o, i));
        let j = choose|j: int| #[trigger] latest_access(o, j, i) && o[j].value == o[i].value;
        if o[j].write {
            assert(last_write(o, j, i));
        } else {
            lemma_follows_back(o, j);
            let m = choose|m: int| #[trigger] last_write(o, m, j) && o[m].value == o[j].value;
            assert(last_write(o, m, i));
        }
    }
}

/// Every read returns the last value written to its address exactly when the
/// first access to each address is a write and every read has the value of the
/// latest earlier access to its address.
pub proof fn reads_follow_the_latest_access(o: Seq<Access>)
    ensures
        memory_consistent(o) <==> forall|i: int| 0 <= i < o.len() ==> #[trigger] follows_on(o, i),
{
    if memory_consistent(o) {
        assert forall|i: int| 0 <= i < o.len() implies #[trigger] follows_on(o, i) by {
            if !o[i].write {
                assert(explained(o, i));
                let w = choose|w: int| #[trigger] last_write(o, w, i) && o[w].value == o[i].value;
                let j = lemma_latest_access(o, w, i);
                if j != w {
                    assert(explained(o, j));
                    let m = choose|m: int| #[trigger]
                        last_write(o, m, j) && o[m].value == o[j].value;
                    assert(m == w) by {
                        if m < w {
                            assert(o[w].address == o[j].address);
                        } else if m > w {
                            assert(o[m].address == o[i].address);
                        }
                    }
                }
            }
        }
    }
    if forall|i: int| 0 <= i < o.len() ==> #[trigger] follows_on(o, i) {
        assert forall|i: int| 0 <= i < o.len() implies #[trigger] explained(o, i) by {
            lemma_follows_back(o, i);
        }
    }
}

} // verus!
