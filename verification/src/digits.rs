//! Positional notation: numbers as digit sequences, most significant digit first.

use vstd::prelude::*;

verus! {

/// The number that the digits of `s` write in base `base`.
pub open spec fn positional(s: Seq<int>, base: int) -> int
    decreases s.len(),
{
    if s.len() == 0 {
        0
    } else {
        positional(s.drop_last(), base) * base + s.last()
    }
}

/// Every element of `s` is a digit of base `base`.
pub open spec fn are_digits(s: Seq<int>, base: int) -> bool {
    forall|i: int| 0 <= i < s.len() ==> 0 <= #[trigger] s[i] < base
}

/// The number that big-endian bytes write.
pub open spec fn bytes_value(bytes: Seq<u8>) -> nat {
    positional(byte_digits(bytes), 0x100) as nat
}

/// The number that 32-bit limbs write, most significant limb first.
pub open spec fn limbs_value(limbs: Seq<u32>) -> nat {
    positional(limb_digits(limbs), 0x1_0000_0000) as nat
}

pub open spec fn byte_digits(bytes: Seq<u8>) -> Seq<int> {
    Seq::new(bytes.len(), |i: int| bytes[i] as int)
}

pub open spec fn limb_digits(limbs: Seq<u32>) -> Seq<int> {
    Seq::new(limbs.len(), |i: int| limbs[i] as int)
}

/// The 32-bit limb that four consecutive bytes write.
pub open spec fn limb_of_bytes(bytes: Seq<u8>, j: int) -> int {
    bytes[4 * j] * 0x100_0000 + bytes[4 * j + 1] * 0x1_0000 + bytes[4 * j + 2] * 0x100 + bytes[4 * j
        + 3]
}

pub proof fn lemma_positional_nonnegative(s: Seq<int>, base: int)
    requires
        base > 0,
        are_digits(s, base),
    ensures
        positional(s, base) >= 0,
    decreases s.len(),
{
    if s.len() > 0 {
        let t = s.drop_last();
        assert(are_digits(t, base));
        lemma_positional_nonnegative(t, base);
        let p = positional(t, base);
        assert(p * base >= 0) by (nonlinear_arith)
            requires
                p >= 0,
                base > 0,
        ;
    }
}

/// The first difference decides how two numbers of equal length compare.
pub proof fn lemma_first_difference(a: Seq<int>, b: Seq<int>, base: int, k: int)
    requires
        base > 0,
        a.len() == b.len(),
        are_digits(a, base),
        are_digits(b, base),
        0 <= k < a.len(),
        forall|j: int| 0 <= j < k ==> a[j] == b[j],
        a[k] < b[k],
    ensures
        positional(a, base) < positional(b, base),
    decreases a.len(),
{
    let n = a.len() as int;
    let s = a.drop_last();
    let t = b.drop_last();
    let p = positional(s, base);
    let q = positional(t, base);
    if k == n - 1 {
        assert(s =~= t);
    } else {
        assert(are_digits(s, base));
        assert(are_digits(t, base));
        lemma_first_difference(s, t, base, k);
        assert(p * base + base <= q * base) by (nonlinear_arith)
            requires
                p + 1 <= q,
                base > 0,
        ;
        assert(0 <= a[n - 1] < base);
        assert(0 <= b[n - 1] < base);
    }
}

/// Digits are determined by the number they write and their count.
pub proof fn lemma_digits_unique(a: Seq<int>, b: Seq<int>, base: int)
    requires
        base > 0,
        a.len() == b.len(),
        are_digits(a, base),
        are_digits(b, base),
        positional(a, base) == positional(b, base),
    ensures
        a == b,
    decreases a.len(),
{
    let n = a.len() as int;
    if n > 0 {
        let s = a.drop_last();
        let t = b.drop_last();
        assert(are_digits(s, base));
        assert(are_digits(t, base));
        let p = positional(s, base);
        let q = positional(t, base);
        let x = a[n - 1];
        let y = b[n - 1];
        assert(p == q && x == y) by (nonlinear_arith)
            requires
                p * base + x == q * base + y,
                0 <= x < base,
                0 <= y < base,
        ;
        lemma_digits_unique(s, t, base);
        assert(a =~= s.push(x));
        assert(b =~= t.push(y));
    }
    assert(a =~= b);
}

/// Limbs made of four bytes each write the number that the bytes write.
pub proof fn lemma_bytes_regrouped(bytes: Seq<u8>, limbs: Seq<u32>)
    requires
        bytes.len() == 4 * limbs.len(),
        forall|j: int| 0 <= j < limbs.len() ==> #[trigger] limbs[j] == limb_of_bytes(bytes, j),
    ensures
        positional(limb_digits(limbs), 0x1_0000_0000) == positional(byte_digits(bytes), 0x100),
    decreases limbs.len(),
{
    let n = limbs.len() as int;
    if n > 0 {
        let bs = bytes.take(4 * n - 4);
        let ls = limbs.drop_last();
        assert forall|j: int| 0 <= j < ls.len() implies #[trigger] ls[j] == limb_of_bytes(
            bs,
            j,
        ) by {
            assert(limbs[j] == limb_of_bytes(bytes, j));
        }
        lemma_bytes_regrouped(bs, ls);
        assert(limb_digits(limbs).drop_last() =~= limb_digits(ls));
        let d = byte_digits(bytes);
        assert(d.drop_last().drop_last().drop_last().drop_last() =~= byte_digits(bs));
        reveal_with_fuel(positional, 5);
        assert(limbs[n - 1] == limb_of_bytes(bytes, n - 1));
    } else {
        assert(bytes.len() == 0);
    }
}

/// A 64-bit number is written by its two halves.
pub proof fn lemma_two_limbs(hi: u32, lo: u32)
    ensures
        limbs_value(seq![hi, lo]) == hi * 0x1_0000_0000 + lo,
{
    let d = limb_digits(seq![hi, lo]);
    reveal_with_fuel(positional, 3);
    assert(d.drop_last().drop_last().len() == 0);
}

/// A 256-bit number is written by its eight limbs.
pub proof fn lemma_eight_limbs(s: Seq<u32>)
    requires
        s.len() == 8,
    ensures
        limbs_value(s) == s[0] * 0x1_0000_0000_0000_0000_0000_0000_0000_0000_0000_0000_0000_0000_0000_0000int + s[1] * 0x1_0000_0000_0000_0000_0000_0000_0000_0000_0000_0000_0000_0000int + s[2] * 0x1_0000_0000_0000_0000_0000_0000_0000_0000_0000_0000int + s[3] * 0x1_0000_0000_0000_0000_0000_0000_0000_0000int + s[4] * 0x1_0000_0000_0000_0000_0000_0000int + s[5] * 0x1_0000_0000_0000_0000int + s[6] * 0x1_0000_0000int + s[7],
{
    let d = limb_digits(s);
    lemma_positional_nonnegative(d, 0x1_0000_0000);
    assert forall|n: int| 0 < n <= 8 implies #[trigger] d.take(n).drop_last() == d.take(n - 1)
        && d.take(n).last() == s[n - 1] by {
        assert(d.take(n).drop_last() =~= d.take(n - 1));
    }
    assert(d.take(8) =~= d);
    assert(positional(d.take(0), 0x1_0000_0000) == 0);
    assert(positional(d.take(1), 0x1_0000_0000) == s[0]);
    assert(positional(d.take(2), 0x1_0000_0000) == s[0] * 0x1_0000_0000 + s[1]);
    assert(positional(d.take(3), 0x1_0000_0000) == positional(d.take(2), 0x1_0000_0000)
        * 0x1_0000_0000 + s[2]);
    assert(positional(d.take(4), 0x1_0000_0000) == positional(d.take(3), 0x1_0000_0000)
        * 0x1_0000_0000 + s[3]);
    assert(positional(d.take(5), 0x1_0000_0000) == positional(d.take(4), 0x1_0000_0000)
        * 0x1_0000_0000 + s[4]);
    assert(positional(d.take(6), 0x1_0000_0000) == positional(d.take(5), 0x1_0000_0000)
        * 0x1_0000_0000 + s[5]);
    assert(positional(d.take(7), 0x1_0000_0000) == positional(d.take(6), 0x1_0000_0000)
        * 0x1_0000_0000 + s[6]);
    assert(positional(d.take(8), 0x1_0000_0000) == positional(d.take(7), 0x1_0000_0000)
        * 0x1_0000_0000 + s[7]);
}

/// The first differing limb decides how two numbers compare.
pub proof fn lemma_limbs_less(a: Seq<u32>, b: Seq<u32>, k: int)
    requires
        a.len() == b.len(),
        0 <= k < a.len(),
        forall|j: int| 0 <= j < k ==> a[j] == b[j],
        a[k] < b[k],
    ensures
        limbs_value(a) < limbs_value(b),
{
    lemma_positional_nonnegative(limb_digits(a), 0x1_0000_0000);
    lemma_first_difference(limb_digits(a), limb_digits(b), 0x1_0000_0000, k);
}

/// Limbs are determined by the number they write and their count.
pub proof fn lemma_limbs_unique(a: Seq<u32>, b: Seq<u32>)
    requires
        a.len() == b.len(),
        limbs_value(a) == limbs_value(b),
    ensures
        a == b,
{
    let c = limb_digits(a);
    let d = limb_digits(b);
    lemma_positional_nonnegative(c, 0x1_0000_0000);
    lemma_positional_nonnegative(d, 0x1_0000_0000);
    lemma_digits_unique(c, d, 0x1_0000_0000);
    assert forall|i: int| 0 <= i < a.len() implies a[i] == b[i] by {
        assert(c[i] == d[i]);
    }
    assert(a =~= b);
}

} // verus!
