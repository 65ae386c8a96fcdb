//! Permutations of `0..n` as index sequences, and rearrangements of sequences.

use vstd::prelude::*;
use vstd::seq_lib::*;
use vstd::set_lib::*;

verus! {

/// `p` lists every index of `0..p.len()` exactly once.
pub open spec fn is_permutation(p: Seq<usize>) -> bool {
    &&& forall|i: int| 0 <= i < p.len() ==> (#[trigger] p[i]) < p.len()
    &&& forall|i: int, j: int|
        0 <= i < p.len() && 0 <= j < p.len() && i != j ==> #[trigger] p[i] != #[trigger] p[j]
}

/// The sequence whose position `i` holds `s[p[i]]`.
pub open spec fn permuted<T>(s: Seq<T>, p: Seq<usize>) -> Seq<T> {
    Seq::new(p.len(), |i: int| s[p[i] as int])
}

/// Every index is listed by a permutation: an injective map of a finite set
/// into itself reaches every element.
pub proof fn lemma_permutation_reaches(p: Seq<usize>, k: int) -> (i: int)
    requires
        is_permutation(p),
        0 <= k < p.len(),
    ensures
        0 <= i < p.len(),
        p[i] == k,
{
    let q = Seq::new(p.len(), |i: int| p[i] as int);
    assert(q.no_duplicates()) by {
        assert forall|i: int, j: int|
            0 <= i < q.len() && 0 <= j < q.len() && i != j implies q[i] != q[j] by {
            assert(p[i] != p[j]);
        }
    }
    q.unique_seq_to_set();
    let all = set_int_range(0, p.len() as int);
    lemma_int_range(0, p.len() as int);
    assert(q.to_set().subset_of(all)) by {
        assert forall|x: int| q.to_set().contains(x) implies all.contains(x) by {
            let i = choose|i: int| 0 <= i < q.len() && q[i] == x;
            assert(p[i] < p.len());
        }
    }
    lemma_subset_equality(q.to_set(), all);
    assert(q.to_set().contains(k));
    let i = choose|i: int| 0 <= i < q.len() && q[i] == k;
    i
}

/// Reading a sequence through an injective map of its indices keeps its multiset.
pub proof fn lemma_rearranged_multiset<T>(s: Seq<T>, t: Seq<T>, f: spec_fn(int) -> int)
    requires
        t.len() == s.len(),
        forall|i: int| 0 <= i < s.len() ==> 0 <= #[trigger] f(i) < s.len(),
        forall|i: int, j: int|
            0 <= i < s.len() && 0 <= j < s.len() && i != j ==> #[trigger] f(i) != #[trigger] f(j),
        forall|i: int| 0 <= i < s.len() ==> #[trigger] t[i] == s[f(i)],
    ensures
        t.to_multiset() == s.to_multiset(),
    decreases s.len(),
{
    broadcast use to_multiset_build, to_multiset_remove;

    let n = s.len() as int;
    if n == 0 {
        assert(t =~= s);
    } else {
        let k = f(n - 1);
        let g = |i: int|
            if f(i) > k {
                f(i) - 1
            } else {
                f(i)
            };
        let rest = s.remove(k);
        assert forall|i: int| 0 <= i < n - 1 implies 0 <= #[trigger] g(i) < n - 1 by {
            assert(f(i) != f(n - 1));
        }
        assert forall|i: int, j: int|
            0 <= i < n - 1 && 0 <= j < n - 1 && i != j implies #[trigger] g(i) != #[trigger] g(
            j,
        ) by {
            assert(f(i) != f(j));
            assert(f(i) != f(n - 1));
            assert(f(j) != f(n - 1));
        }
        assert forall|i: int| 0 <= i < n - 1 implies #[trigger] t.drop_last()[i] == rest[g(i)] by {
            assert(t[i] == s[f(i)]);
            assert(f(i) != f(n - 1));
            assert(0 <= f(i) < n);
        }
        lemma_rearranged_multiset(rest, t.drop_last(), g);
        assert(t[n - 1] == s[k]);
        assert(t =~= t.drop_last().push(s[k]));
        assert(s.to_multiset() =~= rest.to_multiset().insert(s[k])) by {
            s.to_multiset_ensures();
            assert(s.contains(s[k]));
        }
    }
}

/// Reading a sequence through a permutation of its indices keeps its multiset.
pub proof fn lemma_permuted_multiset<T>(s: Seq<T>, p: Seq<usize>)
    requires
        is_permutation(p),
        p.len() == s.len(),
    ensures
        permuted(s, p).to_multiset() == s.to_multiset(),
{
    let f = |i: int| p[i] as int;
    assert forall|i: int| 0 <= i < s.len() implies 0 <= #[trigger] f(i) < s.len() by {
        assert(p[i] < p.len());
    }
    assert forall|i: int, j: int|
        0 <= i < s.len() && 0 <= j < s.len() && i != j implies #[trigger] f(i) != #[trigger] f(
        j,
    ) by {
        assert(p[i] != p[j]);
    }
    lemma_rearranged_multiset(s, permuted(s, p), f);
}

} // verus!
