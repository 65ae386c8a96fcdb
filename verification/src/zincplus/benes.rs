//! Routing on a Benes switching network.
//!
//! A network on `2^v` wires has `2v - 1` layers of switches. Layer `l` pairs
//! the wires that differ in its stride bit, and each switch passes its pair on
//! or swaps it. Such a network can carry out every permutation of its wires;
//! whatever its switches, it carries out some permutation.

use crate::perm;
use vstd::arithmetic::div_mod::*;
use vstd::arithmetic::mul::*;
use vstd::arithmetic::power2::*;
use vstd::bits::*;
use vstd::prelude::*;

verus! {

/// The stride bit of layer `layer` of a network on `2^v` wires: the sequence
/// `v-1, ..., 1, 0, 1, ..., v-1`.
pub open spec fn stride_bit_of(v: int, layer: int) -> int {
    if layer < v {
        v - 1 - layer
    } else {
        layer - v + 1
    }
}

/// The distance between the two wires of a switch of layer `layer`.
pub open spec fn stride_of(v: int, layer: int) -> int {
    pow2(stride_bit_of(v, layer) as nat) as int
}

/// Wire `i` is the upper wire of its switch when switches span `stride` wires.
pub open spec fn is_upper(i: int, stride: int) -> bool {
    i % (2 * stride) < stride
}

/// The wire whose content wire `i` holds after a layer of switches `bits`.
pub open spec fn source(bits: Seq<bool>, stride: int, i: int) -> int {
    if is_upper(i, stride) {
        if bits[i] {
            i + stride
        } else {
            i
        }
    } else {
        if bits[i - stride] {
            i - stride
        } else {
            i
        }
    }
}

/// The wire that wire `i` has its content from once layers `from..to` ran.
pub open spec fn origin(layers: Seq<Vec<bool>>, v: int, from: int, to: int, i: int) -> int
    decreases to - from,
{
    if from >= to {
        i
    } else {
        origin(layers, v, from, to - 1, source(layers[to - 1]@, stride_of(v, to - 1), i))
    }
}

proof fn lemma_block_upper(base: int, m: int, s: int, x: int)
    requires
        s > 0,
        m % (2 * s) == 0,
        base % m == 0,
        base >= 0,
        0 <= x < m,
    ensures
        is_upper(base + x, s) == is_upper(x, s),
        is_upper(x, s) ==> x + s < m,
        !is_upper(x, s) ==> x >= s,
{
    let t = 2 * s;
    let q = base / m;
    let r = m / t;
    lemma_fundamental_div_mod(base, m);
    lemma_fundamental_div_mod(m, t);
    assert(base == t * (r * q)) by (nonlinear_arith)
        requires
            base == m * q,
            m == t * r,
    ;
    lemma_mod_multiples_vanish(r * q, x, t);
    assert((base + x) % t == x % t);
    lemma_fundamental_div_mod(x, t);
    let a = x / t;
    assert(a < r) by (nonlinear_arith)
        requires
            t * a + x % t < t * r,
            x % t >= 0,
            t > 0,
    ;
    assert(t * a + t <= t * r) by (nonlinear_arith)
        requires
            a < r,
            t > 0,
    ;
    lemma_mod_bound(x, t);
    if !is_upper(x, s) {
        assert(a >= 0) by (nonlinear_arith)
            requires
                x >= 0,
                x == t * a + x % t,
                x % t < t,
                t > 0,
        ;
        assert(t * a >= 0) by (nonlinear_arith)
            requires
                a >= 0,
                t > 0,
        ;
    }
}

proof fn lemma_stride_divides(v: int, depth: int, layer: int)
    requires
        0 <= depth < v,
        depth <= layer < 2 * v - 1 - depth,
    ensures
        stride_of(v, layer) > 0,
        pow2((v - depth) as nat) as int % (2 * stride_of(v, layer)) == 0,
{
    let k = stride_bit_of(v, layer) as nat;
    let e = (v - depth) as nat;
    lemma_pow2_pos(k);
    lemma_pow2_unfold(k + 1);
    lemma_pow2_adds(k + 1, (e - k - 1) as nat);
    lemma_mod_multiples_basic(pow2((e - k - 1) as nat) as int, pow2(k + 1) as int);
    assert(pow2(e) == pow2(k + 1) * pow2((e - k - 1) as nat));
    lemma_mul_is_commutative(pow2(k + 1) as int, pow2((e - k - 1) as nat) as int);
}

/// Layers inside a block neither leave the block nor look outside it.
proof fn lemma_origin_block(
    a: Seq<Vec<bool>>,
    b: Seq<Vec<bool>>,
    v: int,
    depth: int,
    from: int,
    to: int,
    base: int,
    x: int,
)
    requires
        0 <= depth < v,
        depth <= from <= to <= 2 * v - 1 - depth,
        base >= 0,
        base % (pow2((v - depth) as nat) as int) == 0,
        0 <= x < pow2((v - depth) as nat),
        forall|l: int, i: int|
            from <= l < to && base <= i < base + pow2((v - depth) as nat)
                ==> #[trigger] a[l]@[i] == b[l]@[i],
    ensures
        origin(a, v, from, to, base + x) == origin(b, v, from, to, base + x),
        base <= origin(a, v, from, to, base + x) < base + pow2((v - depth) as nat),
    decreases to - from,
{
    if from < to {
        let m = pow2((v - depth) as nat) as int;
        let s = stride_of(v, to - 1);
        lemma_stride_divides(v, depth, to - 1);
        lemma_block_upper(base, m, s, x);
        let y = source(a[to - 1]@, s, base + x);
        assert(is_upper(base + x, s) ==> a[to - 1]@[base + x] == b[to - 1]@[base + x]);
        assert(!is_upper(base + x, s) ==> a[to - 1]@[base + x - s] == b[to - 1]@[base + x - s]);
        assert(y == source(b[to - 1]@, s, base + x));
        lemma_origin_block(a, b, v, depth, from, to - 1, base, y - base);
    }
}

/// The first layer can be peeled off in place of the last.
proof fn lemma_origin_first(layers: Seq<Vec<bool>>, v: int, from: int, to: int, i: int)
    requires
        from < to,
    ensures
        origin(layers, v, from, to, i) == source(
            layers[from]@,
            stride_of(v, from),
            origin(layers, v, from + 1, to, i),
        ),
    decreases to - from,
{
    let y = source(layers[to - 1]@, stride_of(v, to - 1), i);
    if from + 1 == to {
        assert(origin(layers, v, from, to, i) == origin(layers, v, from, from, y));
    } else {
        lemma_origin_first(layers, v, from, to - 1, y);
    }
}

/// The other wire of the outermost switch of a block of `2h` wires.
pub open spec fn mate(i: int, h: int) -> int {
    if i < h {
        i + h
    } else {
        i - h
    }
}

/// The output that input `i` is delivered to.
pub open spec fn destination(perm: Seq<usize>, i: int) -> int {
    choose|j: int| 0 <= j < perm.len() && #[trigger] perm[j] == i
}

/// The input that is delivered to the exit mate of input `i`'s destination.
pub open spec fn exit_mate_of(perm: Seq<usize>, i: int) -> int {
    perm[mate(destination(perm, i), perm.len() as int / 2)] as int
}

/// The input `n` pairs of steps away from `a` on its cycle of mates, each pair
/// from an input to its entry mate and on to that one's exit mate; backwards
/// where `n` is negative.
pub open spec fn walk(perm: Seq<usize>, a: int, n: int) -> int
    decreases (if n < 0 {
        -n
    } else {
        n
    }),
{
    let h = perm.len() as int / 2;
    if n == 0 {
        a
    } else if n > 0 {
        exit_mate_of(perm, mate(walk(perm, a, n - 1), h))
    } else {
        mate(exit_mate_of(perm, walk(perm, a, n + 1)), h)
    }
}

/// The lowest input of the cycle through `a` is a whole number of pairs of steps
/// away from `a`.
pub open spec fn lowest_in_step(perm: Seq<usize>, a: int) -> bool {
    exists|n: int|
        {
            let lowest = #[trigger] walk(perm, a, n);
            forall|k: int|
                lowest <= #[trigger] walk(perm, a, k) && lowest <= mate(
                    walk(perm, a, k),
                    perm.len() as int / 2,
                )
        }
}

/// A block sends input `a` through its bottom sub-network: the lowest input of
/// every cycle goes through the top one, and mates go through different ones.
pub open spec fn goes_bottom(perm: Seq<usize>, a: int) -> bool {
    !lowest_in_step(perm, a)
}

/// The input that a block delivers to the exit mate of input `i`'s destination.
pub open spec fn exit_mate(perm: Seq<usize>, inv: Seq<usize>, h: int, i: int) -> int {
    perm[mate(inv[i] as int, h)] as int
}

/// `inv` undoes `perm`.
pub open spec fn inverts(perm: Seq<usize>, inv: Seq<usize>) -> bool {
    &&& inv.len() == perm.len()
    &&& forall|i: int| 0 <= i < inv.len() ==> (#[trigger] inv[i]) < perm.len() && perm[inv[i] as int] == i
    &&& forall|j: int| 0 <= j < perm.len() ==> inv[(#[trigger] perm[j]) as int] == j
}

proof fn lemma_exit_mate(perm: Seq<usize>, inv: Seq<usize>, h: int, i: int)
    requires
        perm::is_permutation(perm),
        inverts(perm, inv),
        perm.len() == 2 * h,
        h >= 1,
        0 <= i < 2 * h,
    ensures
        0 <= exit_mate(perm, inv, h, i) < 2 * h,
        exit_mate(perm, inv, h, i) != i,
        exit_mate(perm, inv, h, exit_mate(perm, inv, h, i)) == i,
{
    let j = inv[i] as int;
    assert(perm[j] == i);
    let k = mate(j, h);
    assert(perm[k] < perm.len());
    assert(perm[k] != perm[j]);
    assert(inv[perm[k] as int] == k);
}

/// The exit mate by the destination is the one by the inverse.
pub proof fn lemma_exit_mate_of(perm: Seq<usize>, inv: Seq<usize>, h: int, i: int)
    requires
        perm::is_permutation(perm),
        inverts(perm, inv),
        perm.len() == 2 * h,
        h >= 1,
        0 <= i < 2 * h,
    ensures
        exit_mate_of(perm, i) == exit_mate(perm, inv, h, i),
        0 <= exit_mate_of(perm, i) < 2 * h,
        exit_mate_of(perm, exit_mate_of(perm, i)) == i,
{
    let j = inv[i] as int;
    assert(perm[j] == i);
    let d = destination(perm, i);
    assert(0 <= d < perm.len() && perm[d] == i);
    lemma_exit_mate(perm, inv, h, i);
    let e = exit_mate(perm, inv, h, i);
    let je = inv[e] as int;
    assert(perm[je] == e);
    let de = destination(perm, e);
    assert(0 <= de < perm.len() && perm[de] == e);
}

pub proof fn lemma_walk_range(perm: Seq<usize>, inv: Seq<usize>, h: int, a: int, n: int)
    requires
        perm::is_permutation(perm),
        inverts(perm, inv),
        perm.len() == 2 * h,
        h >= 1,
        0 <= a < 2 * h,
    ensures
        0 <= walk(perm, a, n) < 2 * h,
    decreases (if n < 0 {
        -n
    } else {
        n
    }),
{
    if n > 0 {
        lemma_walk_range(perm, inv, h, a, n - 1);
        lemma_exit_mate_of(perm, inv, h, mate(walk(perm, a, n - 1), h));
    } else if n < 0 {
        lemma_walk_range(perm, inv, h, a, n + 1);
        lemma_exit_mate_of(perm, inv, h, walk(perm, a, n + 1));
    }
}

/// The next pair of steps of a walk, and the previous one.
proof fn lemma_walk_next(perm: Seq<usize>, inv: Seq<usize>, h: int, a: int, n: int)
    requires
        perm::is_permutation(perm),
        inverts(perm, inv),
        perm.len() == 2 * h,
        h >= 1,
        0 <= a < 2 * h,
    ensures
        walk(perm, a, n + 1) == exit_mate_of(perm, mate(walk(perm, a, n), h)),
        walk(perm, a, n - 1) == mate(exit_mate_of(perm, walk(perm, a, n)), h),
{
    lemma_walk_range(perm, inv, h, a, n);
    if n < 0 {
        lemma_walk_range(perm, inv, h, a, n + 1);
        lemma_exit_mate_of(perm, inv, h, walk(perm, a, n + 1));
    }
    if n > 0 {
        lemma_walk_range(perm, inv, h, a, n - 1);
        lemma_exit_mate_of(perm, inv, h, mate(walk(perm, a, n - 1), h));
    }
}

/// Walks add up, and a walk from the entry mate is the mates of the walk
/// backwards.
proof fn lemma_walk_adds(perm: Seq<usize>, inv: Seq<usize>, h: int, a: int, n: int, k: int)
    requires
        perm::is_permutation(perm),
        inverts(perm, inv),
        perm.len() == 2 * h,
        h >= 1,
        0 <= a < 2 * h,
    ensures
        walk(perm, walk(perm, a, n), k) == walk(perm, a, n + k),
        walk(perm, mate(walk(perm, a, n), h), k) == mate(walk(perm, a, n - k), h),
    decreases (if k < 0 {
        -k
    } else {
        k
    }),
{
    let b = walk(perm, a, n);
    lemma_walk_range(perm, inv, h, a, n);
    if k > 0 {
        lemma_walk_adds(perm, inv, h, a, n, k - 1);
        lemma_walk_next(perm, inv, h, a, n + k - 1);
        lemma_walk_next(perm, inv, h, a, n - k + 1);
        lemma_walk_range(perm, inv, h, a, n - k + 1);
        lemma_exit_mate_of(perm, inv, h, walk(perm, a, n - k + 1));
    } else if k < 0 {
        lemma_walk_adds(perm, inv, h, a, n, k + 1);
        lemma_walk_next(perm, inv, h, a, n + k + 1);
        lemma_walk_next(perm, inv, h, a, n - k - 1);
        lemma_walk_range(perm, inv, h, a, n - k - 1);
        lemma_exit_mate_of(perm, inv, h, mate(walk(perm, a, n - k - 1), h));
    }
}

/// An input lower than `a` lies on the cycle through `a`.
spec fn has_lower(perm: Seq<usize>, a: int) -> bool {
    exists|k: int|
        (#[trigger] walk(perm, a, k)) < a || mate(walk(perm, a, k), perm.len() as int / 2) < a
}

/// `x` lies on the cycle through `a`.
spec fn on_cycle(perm: Seq<usize>, a: int, x: int) -> bool {
    exists|n: int|
        (#[trigger] walk(perm, a, n)) == x || mate(walk(perm, a, n), perm.len() as int / 2) == x
}

/// A cycle has a lowest input.
proof fn lemma_lowest(perm: Seq<usize>, a: int, x: int) -> (lowest: int)
    requires
        on_cycle(perm, a, x),
        forall|y: int| on_cycle(perm, a, y) ==> 0 <= y,
    ensures
        on_cycle(perm, a, lowest),
        forall|y: int| on_cycle(perm, a, y) ==> lowest <= y,
    decreases x,
{
    if exists|y: int| on_cycle(perm, a, y) && y < x {
        let y = choose|y: int| on_cycle(perm, a, y) && y < x;
        lemma_lowest(perm, a, y)
    } else {
        x
    }
}

/// Entry mates are colored together, and differently.
spec fn entry_alternates(color: Seq<u8>, h: int) -> bool {
    forall|a: int|
        0 <= a < h ==> {
            &&& (#[trigger] color[a] == u8::MAX <==> color[a + h] == u8::MAX)
            &&& color[a] != u8::MAX ==> color[a] != color[a + h]
        }
}

/// The exit mate of every colored input but `e1` and `e2` has the other color.
spec fn exit_alternates(
    color: Seq<u8>,
    perm: Seq<usize>,
    inv: Seq<usize>,
    h: int,
    e1: int,
    e2: int,
) -> bool {
    forall|a: int|
        0 <= a < 2 * h && (#[trigger] color[a]) != u8::MAX && a != e1 && a != e2 ==> {
            &&& color[exit_mate(perm, inv, h, a)] != u8::MAX
            &&& color[exit_mate(perm, inv, h, a)] != color[a]
        }
}

spec fn colors_valid(color: Seq<u8>) -> bool {
    forall|a: int|
        0 <= a < color.len() ==> (#[trigger] color[a] == 0 || color[a] == 1 || color[a] == u8::MAX)
}

/// Invert a permutation.
pub fn invert_permutation(perm: &[usize]) -> (inv: Vec<usize>)
    requires
        perm::is_permutation(perm@),
    ensures
        inv@.len() == perm@.len(),
        perm::is_permutation(inv@),
        forall|i: int| 0 <= i < inv@.len() ==> perm@[#[trigger] inv@[i] as int] == i,
        forall|j: int| 0 <= j < perm@.len() ==> inv@[#[trigger] perm@[j] as int] == j,
{
    let m = perm.len();
    let mut inv: Vec<usize> = vec![0usize; m];
    let mut j: usize = 0;
    while j < m
        invariant
            j <= m,
            m == perm@.len(),
            inv@.len() == m,
            perm::is_permutation(perm@),
            forall|k: int| 0 <= k < j ==> inv@[#[trigger] perm@[k] as int] == k,
        decreases m - j,
    {
        let p: usize = perm[j];
        inv.set(p, j);
        j = j + 1;
    }
    proof {
        assert forall|i: int| 0 <= i < inv@.len() implies inv@[i] < m && perm@[#[trigger] inv@[i] as int]
            == i by {
            let k = perm::lemma_permutation_reaches(perm@, i);
            assert(inv@[perm@[k] as int] == k);
        }
        assert forall|i: int, k: int|
            0 <= i < inv@.len() && 0 <= k < inv@.len() && i != k implies #[trigger] inv@[i]
            != #[trigger] inv@[k] by {
            assert(perm@[inv@[i] as int] == i);
            assert(perm@[inv@[k] as int] == k);
        }
    }
    inv
}

/// One step of the walk that colors a cycle of mates: `i` is the next input to
/// color, and the walk came to it from `last`, unless it just began.
proof fn lemma_walk_step(
    before: Seq<u8>,
    perm: Seq<usize>,
    inv: Seq<usize>,
    h: int,
    start: int,
    last: int,
    i: int,
)
    requires
        perm::is_permutation(perm),
        inverts(perm, inv),
        perm.len() == 2 * h,
        before.len() == 2 * h,
        1 <= h,
        0 <= start < 2 * h,
        0 <= i < 2 * h,
        colors_valid(before),
        entry_alternates(before, h),
        before[i] == u8::MAX,
        last == -1 ==> i == start && exit_alternates(before, perm, inv, h, -1, -1),
        last != -1 ==> {
            &&& 0 <= last < 2 * h
            &&& before[start] == 0
            &&& before[last] == 1
            &&& exit_mate(perm, inv, h, last) == i
            &&& exit_alternates(before, perm, inv, h, start, last)
        },
    ensures
        before[mate(i, h)] == u8::MAX,
        ({
            let e = mate(i, h);
            let after = before.update(i, 0).update(e, 1);
            let next = exit_mate(perm, inv, h, e);
            &&& 0 <= next < 2 * h
            &&& colors_valid(after)
            &&& entry_alternates(after, h)
            &&& after[start] == 0
            &&& exit_alternates(after, perm, inv, h, start, e)
            &&& next == start ==> exit_alternates(after, perm, inv, h, -1, -1)
            &&& next != start ==> after[next] == u8::MAX
        }),
{
    let e = mate(i, h);
    let after = before.update(i, 0).update(e, 1);
    let next = exit_mate(perm, inv, h, e);
    if i >= h {
        assert(before[i - h] == u8::MAX <==> before[i - h + h] == u8::MAX);
    }
    assert(before[e] == u8::MAX);
    lemma_exit_mate(perm, inv, h, e);
    lemma_exit_mate(perm, inv, h, i);
    lemma_exit_mate(perm, inv, h, start);
    if last != -1 {
        lemma_exit_mate(perm, inv, h, last);
    }
    assert(entry_alternates(after, h)) by {
        assert forall|a: int| 0 <= a < h implies {
            &&& (#[trigger] after[a] == u8::MAX <==> after[a + h] == u8::MAX)
            &&& after[a] != u8::MAX ==> after[a] != after[a + h]
        } by {
            assert(before[a] == u8::MAX <==> before[a + h] == u8::MAX);
        }
    }
    assert forall|a: int|
        0 <= a < 2 * h && (#[trigger] after[a]) != u8::MAX && a != start && a != e implies {
        &&& after[exit_mate(perm, inv, h, a)] != u8::MAX
        &&& after[exit_mate(perm, inv, h, a)] != after[a]
    } by {
        lemma_exit_mate(perm, inv, h, a);
        if a != i && a != last {
            assert(before[a] != u8::MAX);
        }
    }
    if next != start {
        lemma_exit_mate(perm, inv, h, next);
        if before[next] != u8::MAX {
            // A colored input other than the ends of the walk has a colored
            // exit mate, and the exit mate of `next` is `e`.
            assert(next != last);
            assert(before[exit_mate(perm, inv, h, next)] != u8::MAX);
        }
        if next == i {
            assert(exit_mate(perm, inv, h, i) == e);
        }
    }
}

/// The entry mate of an input that a walk from `start` came to is on the cycle
/// through `start`.
proof fn lemma_walk_returns(perm: Seq<usize>, inv: Seq<usize>, h: int, start: int, steps: int)
    requires
        perm::is_permutation(perm),
        inverts(perm, inv),
        perm.len() == 2 * h,
        h >= 1,
        0 <= start < 2 * h,
    ensures
        walk(perm, start, steps + 1) == exit_mate(
            perm,
            inv,
            h,
            mate(walk(perm, start, steps), h),
        ),
        start < mate(walk(perm, start, steps), h) ==> has_lower(
            perm,
            mate(walk(perm, start, steps), h),
        ),
{
    let e = mate(walk(perm, start, steps), h);
    lemma_walk_range(perm, inv, h, start, steps);
    lemma_walk_next(perm, inv, h, start, steps);
    lemma_exit_mate_of(perm, inv, h, e);
    lemma_walk_adds(perm, inv, h, start, steps, steps);
    assert(walk(perm, start, 0) == start);
    assert(walk(perm, e, steps) == mate(start, h));
    assert(perm.len() as int / 2 == h);
    assert(mate(walk(perm, e, steps), perm.len() as int / 2) == start);
}

/// Along a walk the colors stay.
proof fn lemma_walk_color(
    color: Seq<u8>,
    perm: Seq<usize>,
    inv: Seq<usize>,
    h: int,
    a: int,
    n: int,
)
    requires
        perm::is_permutation(perm),
        inverts(perm, inv),
        perm.len() == 2 * h,
        color.len() == 2 * h,
        h >= 1,
        0 <= a < 2 * h,
        forall|x: int| 0 <= x < 2 * h ==> #[trigger] color[x] == 0 || color[x] == 1,
        entry_alternates(color, h),
        exit_alternates(color, perm, inv, h, -1, -1),
    ensures
        0 <= walk(perm, a, n) < 2 * h,
        color[walk(perm, a, n)] == color[a],
        color[mate(walk(perm, a, n), h)] == 1 - color[a],
    decreases (if n < 0 {
        -n
    } else {
        n
    }),
{
    lemma_walk_range(perm, inv, h, a, n);
    if n > 0 {
        let w = walk(perm, a, n - 1);
        lemma_walk_color(color, perm, inv, h, a, n - 1);
        lemma_exit_color(color, perm, inv, h, mate(w, h));
        assert(walk(perm, a, n) == exit_mate_of(perm, mate(w, h)));
    } else if n < 0 {
        let w = walk(perm, a, n + 1);
        lemma_walk_color(color, perm, inv, h, a, n + 1);
        lemma_exit_color(color, perm, inv, h, w);
        lemma_entry_color(color, h, exit_mate_of(perm, w));
        assert(walk(perm, a, n) == mate(exit_mate_of(perm, w), h));
    }
    lemma_entry_color(color, h, walk(perm, a, n));
}

proof fn lemma_exit_color(color: Seq<u8>, perm: Seq<usize>, inv: Seq<usize>, h: int, x: int)
    requires
        perm::is_permutation(perm),
        inverts(perm, inv),
        perm.len() == 2 * h,
        color.len() == 2 * h,
        h >= 1,
        0 <= x < 2 * h,
        forall|y: int| 0 <= y < 2 * h ==> #[trigger] color[y] == 0 || color[y] == 1,
        exit_alternates(color, perm, inv, h, -1, -1),
    ensures
        0 <= exit_mate_of(perm, x) < 2 * h,
        color[exit_mate_of(perm, x)] == 1 - color[x],
{
    lemma_exit_mate_of(perm, inv, h, x);
    let y = exit_mate_of(perm, x);
    assert(color[x] == 0 || color[x] == 1);
    assert(color[y] == 0 || color[y] == 1);
    assert(color[x] != u8::MAX);
    assert(color[y] != color[x]);
}

proof fn lemma_entry_color(color: Seq<u8>, h: int, x: int)
    requires
        color.len() == 2 * h,
        h >= 1,
        0 <= x < 2 * h,
        forall|y: int| 0 <= y < 2 * h ==> #[trigger] color[y] == 0 || color[y] == 1,
        entry_alternates(color, h),
    ensures
        color[mate(x, h)] == 1 - color[x],
{
    if x < h {
        assert(color[x] != u8::MAX);
    } else {
        assert(color[x - h] != u8::MAX);
    }
}

/// Colors that alternate between mates, and under which no lowest input of a
/// cycle is on the bottom, are the ones that the lowest inputs fix.
proof fn lemma_colored_by_lowest(
    color: Seq<u8>,
    perm: Seq<usize>,
    inv: Seq<usize>,
    h: int,
    a: int,
)
    requires
        perm::is_permutation(perm),
        inverts(perm, inv),
        perm.len() == 2 * h,
        color.len() == 2 * h,
        h >= 1,
        0 <= a < 2 * h,
        forall|x: int| 0 <= x < 2 * h ==> #[trigger] color[x] == 0 || color[x] == 1,
        entry_alternates(color, h),
        exit_alternates(color, perm, inv, h, -1, -1),
        forall|x: int| 0 <= x < 2 * h && #[trigger] color[x] == 1 ==> has_lower(perm, x),
    ensures
        (color[a] == 1) == goes_bottom(perm, a),
{
    assert(perm.len() as int / 2 == h);
    if lowest_in_step(perm, a) {
        let n = choose|n: int|
            {
                let lowest = #[trigger] walk(perm, a, n);
                forall|k: int|
                    lowest <= #[trigger] walk(perm, a, k) && lowest <= mate(
                        walk(perm, a, k),
                        perm.len() as int / 2,
                    )
            };
        let s = walk(perm, a, n);
        lemma_walk_color(color, perm, inv, h, a, n);
        if color[s] == 1 {
            let k = choose|k: int|
                (#[trigger] walk(perm, s, k)) < s || mate(walk(perm, s, k), perm.len() as int / 2)
                    < s;
            lemma_walk_adds(perm, inv, h, a, n, k);
            assert(s <= walk(perm, a, n + k));
        }
    } else if color[a] == 0 {
        assert forall|y: int| on_cycle(perm, a, y) implies 0 <= y by {
            let n = choose|n: int|
                (#[trigger] walk(perm, a, n)) == y || mate(walk(perm, a, n), perm.len() as int / 2)
                    == y;
            lemma_walk_range(perm, inv, h, a, n);
        }
        assert(walk(perm, a, 0) == a);
        assert(on_cycle(perm, a, a));
        let s = lemma_lowest(perm, a, a);
        let n = choose|n: int|
            (#[trigger] walk(perm, a, n)) == s || mate(walk(perm, a, n), perm.len() as int / 2) == s;
        lemma_walk_color(color, perm, inv, h, a, n);
        if walk(perm, a, n) == s {
            assert forall|k: int|
                s <= #[trigger] walk(perm, a, k) && s <= mate(
                    walk(perm, a, k),
                    perm.len() as int / 2,
                ) by {
                assert(on_cycle(perm, a, walk(perm, a, k)));
                assert(on_cycle(perm, a, mate(walk(perm, a, k), perm.len() as int / 2)));
            }
        } else {
            assert(color[s] == 1);
            let k = choose|k: int|
                (#[trigger] walk(perm, s, k)) < s || mate(walk(perm, s, k), perm.len() as int / 2)
                    < s;
            lemma_walk_adds(perm, inv, h, a, n, k);
            lemma_walk_range(perm, inv, h, a, n - k);
            let w = walk(perm, a, n - k);
            assert(on_cycle(perm, a, w));
            assert(on_cycle(perm, a, mate(w, perm.len() as int / 2)));
        }
    }
}

/// Color the inputs of a block with `0` (top sub-network) and `1` (bottom
/// sub-network) so that entry mates and exit mates get different colors.
///
/// Every input has exactly one entry mate and one exit mate, so the mates form
/// disjoint even cycles, which alternating walks color. Each walk begins at the
/// lowest input of its cycle, which gets color `0`.
#[verifier::rlimit(40)]
fn two_color(perm: &[usize]) -> (color: Vec<u8>)
    requires
        perm::is_permutation(perm@),
        perm@.len() >= 2,
        perm@.len() % 2 == 0,
    ensures
        color@.len() == perm@.len(),
        forall|a: int| 0 <= a < color@.len() ==> #[trigger] color@[a] == 0 || color@[a] == 1,
        forall|a: int|
            0 <= a < perm@.len() / 2 ==> #[trigger] color@[a] != color@[a + perm@.len() / 2],
        forall|j: int|
            0 <= j < perm@.len() / 2 ==> color@[#[trigger] perm@[j] as int] != color@[perm@[j
                + perm@.len() / 2] as int],
        forall|a: int|
            0 <= a < color@.len() ==> (#[trigger] color@[a] == 1) == goes_bottom(perm@, a),
{
    let m = perm.len();
    let h: usize = m / 2;
    let inv = invert_permutation(perm);
    let mut color: Vec<u8> = vec![u8::MAX; m];
    let ghost mut open: Set<int> = vstd::set_lib::set_int_range(0, m as int);
    proof {
        vstd::set_lib::lemma_int_range(0, m as int);
        assert(inverts(perm@, inv@));
    }
    let mut start: usize = 0;
    while start < m
        invariant
            start <= m,
            m == 2 * h,
            h >= 1,
            m == perm@.len(),
            perm::is_permutation(perm@),
            inverts(perm@, inv@),
            color@.len() == m,
            colors_valid(color@),
            entry_alternates(color@, h as int),
            exit_alternates(color@, perm@, inv@, h as int, -1, -1),
            forall|a: int| 0 <= a < start ==> #[trigger] color@[a] != u8::MAX,
            forall|a: int| 0 <= a < m && #[trigger] color@[a] == 1 ==> has_lower(perm@, a),
            open.finite(),
            forall|a: int| #[trigger]
                open.contains(a) <==> 0 <= a < m && color@[a] == u8::MAX,
        decreases m - start,
    {
        if color[start] == u8::MAX {
            let mut i: usize = start;
            let ghost mut last: int = -1;
            let ghost mut steps: int = 0;
            loop
                invariant_except_break
                    i == walk(perm@, start as int, steps),
                    color@[i as int] == u8::MAX,
                    last == -1 ==> i == start && exit_alternates(
                        color@,
                        perm@,
                        inv@,
                        h as int,
                        -1,
                        -1,
                    ),
                    last != -1 ==> {
                        &&& 0 <= last < m
                        &&& color@[start as int] == 0
                        &&& color@[last] == 1
                        &&& exit_mate(perm@, inv@, h as int, last) == i
                        &&& exit_alternates(color@, perm@, inv@, h as int, start as int, last)
                    },
                invariant
                    i < m,
                    start < m,
                    m == 2 * h,
                    h >= 1,
                    m == perm@.len(),
                    perm::is_permutation(perm@),
                    inverts(perm@, inv@),
                    color@.len() == m,
                    colors_valid(color@),
                    entry_alternates(color@, h as int),
                    forall|a: int| 0 <= a < start ==> #[trigger] color@[a] != u8::MAX,
                    forall|a: int| 0 <= a < m && #[trigger] color@[a] == 1 ==> has_lower(perm@, a),
                    open.finite(),
                    forall|a: int| #[trigger]
                        open.contains(a) <==> 0 <= a < m && color@[a] == u8::MAX,
                ensures
                    color@[start as int] != u8::MAX,
                    exit_alternates(color@, perm@, inv@, h as int, -1, -1),
                decreases open.len(),
            {
                let e: usize = if i < h {
                    i + h
                } else {
                    i - h
                };
                proof {
                    lemma_walk_step(color@, perm@, inv@, h as int, start as int, last, i as int);
                    assert(e >= start);
                    lemma_walk_returns(perm@, inv@, h as int, start as int, steps);
                }
                color.set(i, 0);
                color.set(e, 1);
                let d: usize = inv[e];
                let x: usize = if d < h {
                    d + h
                } else {
                    d - h
                };
                let next: usize = perm[x];
                proof {
                    open = open.remove(i as int).remove(e as int);
                }
                if next == start {
                    break ;
                }
                proof {
                    last = e as int;
                    steps = steps + 1;
                }
                i = next;
            }
        }
        start = start + 1;
    }
    proof {
        assert forall|j: int| 0 <= j < h implies color@[#[trigger] perm@[j] as int]
            != color@[perm@[j + h] as int] by {
            let i = perm@[j] as int;
            assert(i < m);
            assert(inv@[i] == j);
            assert(exit_mate(perm@, inv@, h as int, i) == perm@[j + h]);
            assert(color@[i] != u8::MAX);
        }
        assert forall|a: int| 0 <= a < color@.len() implies (#[trigger] color@[a] == 1)
            == goes_bottom(perm@, a) by {
            lemma_colored_by_lowest(color@, perm@, inv@, h as int, a);
        }
    }
    color
}

/// One bit per wire for each of the `2v - 1` layers of a network on `2^v` wires.
pub open spec fn shaped(layers: Seq<Vec<bool>>, v: int) -> bool {
    &&& layers.len() == 2 * v - 1
    &&& forall|l: int| 0 <= l < layers.len() ==> (#[trigger] layers[l])@.len() == pow2(v as nat)
}

/// Only upper wires carry a set switch bit.
pub open spec fn lower_wires_clear(layers: Seq<Vec<bool>>, v: int) -> bool {
    forall|l: int, i: int|
        0 <= l < layers.len() && 0 <= i < layers[l]@.len() && #[trigger] layers[l]@[i] ==> is_upper(
            i,
            stride_of(v, l),
        )
}

/// The layers that a block at `depth` spans deliver, to each of its wires
/// `base + j`, the content of its wire `base + perm[j]`.
pub open spec fn realizes_block(
    layers: Seq<Vec<bool>>,
    v: int,
    depth: int,
    base: int,
    perm: Seq<usize>,
) -> bool {
    forall|j: int|
        0 <= j < perm.len() ==> origin(layers, v, depth, 2 * v - 1 - depth, base + j) == base
            + #[trigger] perm[j]
}

/// The permutation that a sub-network of a block realizes, the bottom one where
/// `bottom`: its output `j` takes the one of the block's inputs `perm[j]` and
/// `perm[j + h]` that goes through it.
pub open spec fn half(perm: Seq<usize>, bottom: bool) -> Seq<usize> {
    let h = perm.len() as int / 2;
    Seq::new(
        h as nat,
        |j: int|
            ((if goes_bottom(perm, perm[j] as int) == bottom {
                perm[j]
            } else {
                perm[j + h]
            }) as int % h) as usize,
    )
}

/// The switch on wire `i` of layer `l` of a network on `2^e` wires that is routed
/// for `perm`. In a network on two wires the switch is set when they trade places.
/// In a larger one a switch of the entry layer is set when its upper input goes
/// through the bottom sub-network, and a switch of the exit layer when its upper
/// output takes such an input; the layers between are those of the sub-networks.
pub open spec fn routed(perm: Seq<usize>, e: int, l: int, i: int) -> bool
    decreases e,
{
    let h = perm.len() as int / 2;
    if e <= 1 {
        i == 0 && perm[0] == 1
    } else if l == 0 {
        i < h && goes_bottom(perm, i)
    } else if l == 2 * e - 2 {
        i < h && goes_bottom(perm, perm[i] as int)
    } else if i < h {
        routed(half(perm, false), e - 1, l - 1, i)
    } else {
        routed(half(perm, true), e - 1, l - 1, i - h)
    }
}

/// The switches of a block at `depth`, which stand on upper wires, are those that
/// routing sets for `perm`.
pub open spec fn is_routed_block(
    layers: Seq<Vec<bool>>,
    v: int,
    depth: int,
    base: int,
    perm: Seq<usize>,
) -> bool {
    forall|l: int, i: int|
        depth <= l < 2 * v - 1 - depth && base <= i < base + perm.len() && is_upper(
            i,
            stride_of(v, l),
        ) ==> #[trigger] layers[l]@[i] == routed(perm, v - depth, l - depth, i - base)
}

/// The switches are those that routing sets for `perm`.
pub open spec fn is_routed(layers: Seq<Vec<bool>>, v: int, perm: Seq<usize>) -> bool {
    forall|l: int, i: int|
        0 <= l < 2 * v - 1 && 0 <= i < perm.len() ==> #[trigger] layers[l]@[i] == routed(
            perm,
            v,
            l,
            i,
        )
}

/// Two settings differ on the switches of a block at `depth` on `m` wires only.
pub open spec fn agree_outside_block(
    a: Seq<Vec<bool>>,
    b: Seq<Vec<bool>>,
    v: int,
    depth: int,
    base: int,
    m: int,
) -> bool {
    forall|l: int, i: int|
        0 <= l < 2 * v - 1 && 0 <= i < pow2(v as nat) && !(depth <= l < 2 * v - 1 - depth && base
            <= i < base + m && is_upper(i, stride_of(v, l))) ==> #[trigger] a[l]@[i] == b[l]@[i]
}

/// Entry layer, two sub-networks and exit layer compose to the permutation.
proof fn lemma_block_composes(
    layers: Seq<Vec<bool>>,
    v: int,
    depth: int,
    base: int,
    perm: Seq<usize>,
    color: Seq<u8>,
    top: Seq<usize>,
    bot: Seq<usize>,
    h: int,
)
    requires
        0 <= depth < v - 1,
        h == pow2((v - depth - 1) as nat),
        pow2((v - depth) as nat) == 2 * h,
        h >= 1,
        base >= 0,
        base % (2 * h) == 0,
        perm.len() == 2 * h,
        perm::is_permutation(perm),
        color.len() == 2 * h,
        top.len() == h,
        bot.len() == h,
        forall|a: int| 0 <= a < 2 * h ==> #[trigger] color[a] == 0 || color[a] == 1,
        forall|a: int| 0 <= a < h ==> #[trigger] color[a] != color[a + h],
        forall|j: int|
            0 <= j < h ==> color[#[trigger] perm[j] as int] != color[perm[j + h] as int],
        forall|a: int| 0 <= a < h ==> layers[depth]@[base + a] == (#[trigger] color[a] == 1),
        forall|j: int|
            0 <= j < h ==> layers[2 * v - 2 - depth]@[base + j] == (color[#[trigger] perm[j] as int]
                == 1),
        forall|j: int|
            0 <= j < h ==> #[trigger] top[j] == (if color[perm[j] as int] == 0 {
                perm[j]
            } else {
                perm[j + h]
            }) as int % h,
        forall|j: int|
            0 <= j < h ==> #[trigger] bot[j] == (if color[perm[j] as int] == 0 {
                perm[j + h]
            } else {
                perm[j]
            }) as int % h,
        realizes_block(layers, v, depth + 1, base, top),
        realizes_block(layers, v, depth + 1, base + h, bot),
    ensures
        realizes_block(layers, v, depth, base, perm),
{
    let m = 2 * h;
    let exit = 2 * v - 2 - depth;
    assert(stride_of(v, depth) == h);
    assert(stride_of(v, exit) == h);
    assert(m % (2 * h) == 0) by {
        lemma_mod_self_0(m);
    }
    assert forall|j: int| 0 <= j < perm.len() implies origin(
        layers,
        v,
        depth,
        2 * v - 1 - depth,
        base + j,
    ) == base + #[trigger] perm[j] by {
        let jj = if j < h {
            j
        } else {
            j - h
        };
        let i = perm[j] as int;
        assert(perm[j] < perm.len());
        assert(perm[jj] < perm.len());
        assert(perm[jj + h] < perm.len());
        assert(color[perm[jj] as int] != color[perm[jj + h] as int]);
        let c = color[i];
        lemma_block_upper(base, m, h, j);
        lemma_small_mod(j as nat, m as nat);
        let y = source(layers[exit]@, h, base + j);
        let lane = if c == 1 {
            base + h
        } else {
            base
        };
        assert(y == lane + jj);
        // Through the sub-network of the input's color.
        let a = i % h;
        let z = origin(layers, v, depth + 1, exit, y);
        if c == 0 {
            assert(top[jj] == a);
            assert(origin(layers, v, depth + 1, 2 * v - 1 - (depth + 1), base + jj) == base
                + top[jj]);
        } else {
            assert(bot[jj] == a);
            assert(origin(layers, v, depth + 1, 2 * v - 1 - (depth + 1), base + h + jj) == base + h
                + bot[jj]);
        }
        assert(z == lane + a);
        lemma_fundamental_div_mod(i, h);
        assert(0 <= a < h && (i == a || i == a + h)) by (nonlinear_arith)
            requires
                0 <= i < 2 * h,
                i == h * (i / h) + a,
                a == i % h,
                h >= 1,
        ;
        // Through the entry layer.
        lemma_block_upper(base, m, h, z - base);
        lemma_small_mod((z - base) as nat, m as nat);
        assert(color[a] != color[a + h]);
        assert(source(layers[depth]@, h, z) == base + i);
        lemma_origin_first(layers, v, depth, exit + 1, base + j);
        assert(origin(layers, v, depth + 1, exit + 1, base + j) == origin(
            layers,
            v,
            depth + 1,
            exit,
            y,
        ));
    }
}

/// Set the switches of a block's entry layer `depth` and exit layer
/// `2v - 2 - depth`: an entry pair is exchanged when its upper input has color
/// one, an exit pair when its upper output takes an input of color one.
fn set_outer_layers(
    perm: &[usize],
    color: &Vec<u8>,
    base: usize,
    depth: usize,
    v: usize,
    layers: &mut Vec<Vec<bool>>,
)
    requires
        depth + 1 < v,
        v < usize::BITS,
        pow2(v as nat) <= usize::MAX,
        perm@.len() == pow2((v - depth) as nat),
        color@.len() == perm@.len(),
        perm::is_permutation(perm@),
        base + perm@.len() <= pow2(v as nat),
        shaped(old(layers)@, v as int),
    ensures
        shaped(final(layers)@, v as int),
        forall|b: int|
            0 <= b < pow2((v - depth - 1) as nat) ==> final(layers)@[depth as int]@[base + b] == (
            #[trigger] color@[b] == 1),
        forall|j: int|
            0 <= j < pow2((v - depth - 1) as nat) ==> final(layers)@[2 * v - 2 - depth]@[base + j]
                == (color@[#[trigger] perm@[j] as int] == 1),
        forall|l: int, i: int|
            0 <= l < 2 * v - 1 && 0 <= i < pow2(v as nat) && !((l == depth || l == 2 * v - 2 - depth)
                && base <= i < base + pow2((v - depth - 1) as nat)) ==> #[trigger] final(layers)@[l]@[i]
                == old(layers)@[l]@[i],
{
    let m = perm.len();
    let ghost before = layers@;
    let ghost vi = v as int;
    proof {
        lemma_pow2_unfold((v - depth) as nat);
        lemma_pow2_pos((v - depth - 1) as nat);
    }
    let h: usize = m / 2;
    let entry: usize = depth;
    let exit: usize = 2 * v - 2 - depth;
    let mut a: usize = 0;
    while a < h
        invariant
            a <= h,
            m == 2 * h,
            h >= 1,
            v < usize::BITS,
            pow2(v as nat) <= usize::MAX,
            depth + 1 < v,
            vi == v,
            m == perm@.len(),
            entry == depth,
            exit == 2 * v - 2 - depth,
            perm::is_permutation(perm@),
            color@.len() == m,
            base + m <= pow2(v as nat),
            shaped(layers@, vi),
            forall|b: int|
                0 <= b < a ==> layers@[entry as int]@[base + b] == (#[trigger] color@[b] == 1),
            forall|j: int|
                0 <= j < a ==> layers@[exit as int]@[base + j] == (color@[#[trigger] perm@[j] as int]
                    == 1),
            forall|l: int, i: int|
                0 <= l < 2 * v - 1 && 0 <= i < pow2(v as nat) && !((l == entry || l == exit) && base
                    <= i < base + h) ==> #[trigger] layers@[l]@[i] == before[l]@[i],
        decreases h - a,
    {
        proof {
            assert(perm@[a as int] < perm@.len());
        }
        let down: bool = color[a] == 1;
        layers[entry].set(base + a, down);
        let from: usize = perm[a];
        let lift: bool = color[from] == 1;
        layers[exit].set(base + a, lift);
        a = a + 1;
    }
}

/// The permutations that the two sub-networks of a block realize: inputs of
/// color zero take the top one, the others the bottom one.
fn split_by_color(perm: &[usize], color: &Vec<u8>) -> (halves: (Vec<usize>, Vec<usize>))
    requires
        perm@.len() % 2 == 0,
        perm@.len() >= 2,
        color@.len() == perm@.len(),
        perm::is_permutation(perm@),
    ensures
        halves.0@.len() == perm@.len() / 2,
        halves.1@.len() == perm@.len() / 2,
        forall|k: int|
            0 <= k < perm@.len() / 2 ==> #[trigger] halves.0@[k] == (if color@[perm@[k] as int] == 0 {
                perm@[k]
            } else {
                perm@[k + perm@.len() / 2]
            }) as int % (perm@.len() / 2) as int,
        forall|k: int|
            0 <= k < perm@.len() / 2 ==> #[trigger] halves.1@[k] == (if color@[perm@[k] as int] == 0 {
                perm@[k + perm@.len() / 2]
            } else {
                perm@[k]
            }) as int % (perm@.len() / 2) as int,
{
    let n = perm.len();
    let h: usize = n / 2;
    let mut top: Vec<usize> = Vec::new();
    let mut bot: Vec<usize> = Vec::new();
    let mut j: usize = 0;
    while j < h
        invariant
            j <= h,
            n == 2 * h,
            n == perm@.len(),
            h >= 1,
            color@.len() == perm@.len(),
            perm::is_permutation(perm@),
            top@.len() == j,
            bot@.len() == j,
            forall|k: int|
                0 <= k < j ==> #[trigger] top@[k] == (if color@[perm@[k] as int] == 0 {
                    perm@[k]
                } else {
                    perm@[k + h]
                }) as int % (h as int),
            forall|k: int|
                0 <= k < j ==> #[trigger] bot@[k] == (if color@[perm@[k] as int] == 0 {
                    perm@[k + h]
                } else {
                    perm@[k]
                }) as int % (h as int),
        decreases h - j,
    {
        assert(perm@[j as int] < perm@.len());
        let i0: usize = perm[j];
        let i1: usize = perm[j + h];
        if color[i0] == 0 {
            top.push(i0 % h);
            bot.push(i1 % h);
        } else {
            top.push(i1 % h);
            bot.push(i0 % h);
        }
        j = j + 1;
    }
    (top, bot)
}

/// Route one recursion block: the entry layer `depth`, the exit layer
/// `2v - 2 - depth` and the two sub-networks between them, on the wires
/// `base..base + perm.len()`. Whatever the layers held, the block's switches are
/// set, and nothing else is.
#[verifier::rlimit(40)]
pub fn route_block(
    perm: &[usize],
    base: usize,
    depth: usize,
    v: usize,
    layers: &mut Vec<Vec<bool>>,
)
    requires
        depth < v,
        v < usize::BITS,
        pow2(v as nat) <= usize::MAX,
        perm@.len() == pow2((v - depth) as nat),
        perm::is_permutation(perm@),
        base as int % (perm@.len() as int) == 0,
        base + perm@.len() <= pow2(v as nat),
        shaped(old(layers)@, v as int),
    ensures
        shaped(final(layers)@, v as int),
        realizes_block(final(layers)@, v as int, depth as int, base as int, perm@),
        forall|x: Seq<int>, j: int|
            x.len() == pow2(v as nat) && 0 <= j < perm@.len() ==> #[trigger] layers_out(
                x,
                v as int,
                final(layers)@,
                depth as int,
                2 * v - 1 - depth,
            )[base + j] == x[base + perm@[j]],
        is_routed_block(final(layers)@, v as int, depth as int, base as int, perm@),
        depth + 1 < v ==> sends_mates_apart(
            final(layers)@,
            v as int,
            depth as int,
            base as int,
            perm@,
        ),
        agree_outside_block(
            final(layers)@,
            old(layers)@,
            v as int,
            depth as int,
            base as int,
            perm@.len() as int,
        ),
    decreases v - depth,
{
    let m = perm.len();
    let ghost before = layers@;
    let ghost vi = v as int;
    proof {
        lemma2_to64();
        lemma_pow2_unfold((v - depth) as nat);
        lemma_pow2_pos((v - depth - 1) as nat);
    }
    if depth + 1 == v {
        assert(m == 2);
        let bit: bool = perm[0] == 1;
        layers[depth].set(base, bit);
        proof {
            let ls = layers@;
            assert(stride_of(vi, depth as int) == 1);
            lemma_mod_self_0(2);
            lemma_block_upper(base as int, 2, 1, 0);
            lemma_block_upper(base as int, 2, 1, 1);
            assert(perm@[0] != perm@[1]);
            assert forall|j: int| 0 <= j < perm@.len() implies origin(
                ls,
                vi,
                depth as int,
                2 * vi - 1 - depth,
                base + j,
            ) == base + #[trigger] perm@[j] by {
                assert(perm@[0] < 2 && perm@[1] < 2);
                let y = source(ls[depth as int]@, 1, base + j);
                assert(origin(ls, vi, depth as int, depth as int, y) == y);
                assert(origin(ls, vi, depth as int, depth + 1, base + j) == y);
            }
            lemma_block_data(ls, vi, depth as int, base as int, perm@);
        }
        return ;
    }
    let h: usize = m / 2;
    let color = two_color(perm);
    set_outer_layers(perm, &color, base, depth, v, layers);
    let (top, bot) = split_by_color(perm, &color);
    proof {
        lemma_sub_permutation(perm@, color@, top@, h as int, 0);
        lemma_sub_permutation(perm@, color@, bot@, h as int, 1);
        lemma_half_aligned(base as int, h as int);
        lemma_halves(perm@, color@, top@, bot@, h as int);
    }
    let ghost mid = layers@;
    route_block(top.as_slice(), base, depth + 1, v, layers);
    let ghost after_top = layers@;
    route_block(bot.as_slice(), base + h, depth + 1, v, layers);
    proof {
        let d1 = depth + 1;
        let end = 2 * vi - 1 - d1;
        assert forall|k: int| 0 <= k < top@.len() implies origin(
            layers@,
            vi,
            d1,
            2 * vi - 1 - d1,
            base + k,
        ) == base + #[trigger] top@[k] by {
            lemma_origin_block(after_top, layers@, vi, d1, d1, end, base as int, k);
        }
        assert(realizes_block(layers@, vi, d1, base as int, top@));
        assert forall|b: int| 0 <= b < h implies layers@[depth as int]@[base + b] == (
        #[trigger] color@[b] == 1) by {
            assert(after_top[depth as int]@[base + b] == mid[depth as int]@[base + b]);
        }
        assert forall|k: int| 0 <= k < h implies layers@[2 * vi - 2 - depth]@[base + k] == (
        color@[#[trigger] perm@[k] as int] == 1) by {
            assert(after_top[2 * vi - 2 - depth]@[base + k] == mid[2 * vi - 2 - depth]@[base + k]);
        }
        lemma_routed_halves(
            layers@,
            after_top,
            vi,
            depth as int,
            base as int,
            perm@,
            color@,
            top@,
            bot@,
            h as int,
        );
        lemma_block_composes(
            layers@,
            vi,
            depth as int,
            base as int,
            perm@,
            color@,
            top@,
            bot@,
            h as int,
        );
        assert forall|l: int, i: int|
            0 <= l < 2 * vi - 1 && 0 <= i < pow2(v as nat) && !(depth <= l < 2 * vi - 1 - depth && base
                <= i < base + m && is_upper(i, stride_of(vi, l))) implies #[trigger] layers@[l]@[i]
            == before[l]@[i] by {
            if (l == depth || l == 2 * vi - 2 - depth) && base <= i < base + h {
                assert(stride_of(vi, l) == h);
                lemma_mod_self_0(m as int);
                lemma_block_upper(base as int, m as int, h as int, i - base);
                lemma_small_mod((i - base) as nat, m as nat);
            }
            assert(layers@[l]@[i] == after_top[l]@[i]);
            assert(after_top[l]@[i] == mid[l]@[i]);
            assert(mid[l]@[i] == before[l]@[i]);
        }
        lemma_block_data(layers@, vi, depth as int, base as int, perm@);
        lemma_outer_apart(
            layers@,
            vi,
            depth as int,
            base as int,
            perm@,
            color@,
            h as int,
        );
    }
}

/// The outer layers of a block at `depth` send mates apart: an output of the upper
/// half and its mate take their inputs from different sub-networks, as the exit
/// switch says, and the entry switches bring the inputs there.
#[verifier::opaque]
pub open spec fn sends_mates_apart(
    layers: Seq<Vec<bool>>,
    v: int,
    depth: int,
    base: int,
    perm: Seq<usize>,
) -> bool {
    let h = perm.len() as int / 2;
    let entry = layers[depth]@;
    let exit = layers[2 * v - 2 - depth]@;
    forall|j: int|
        0 <= j < h ==> {
            let a = #[trigger] perm[j] as int;
            let b = perm[j + h] as int;
            &&& exit[base + j] == if a < h {
                entry[base + a]
            } else {
                !entry[base + a - h]
            }
            &&& exit[base + j] == if b < h {
                !entry[base + b]
            } else {
                entry[base + b - h]
            }
        }
}

/// The outer layers of a block send mates apart.
proof fn lemma_outer_apart(
    layers: Seq<Vec<bool>>,
    v: int,
    depth: int,
    base: int,
    perm: Seq<usize>,
    color: Seq<u8>,
    h: int,
)
    requires
        h >= 1,
        perm.len() == 2 * h,
        perm::is_permutation(perm),
        color.len() == 2 * h,
        forall|a: int| 0 <= a < 2 * h ==> #[trigger] color[a] == 0 || color[a] == 1,
        forall|a: int| 0 <= a < h ==> #[trigger] color[a] != color[a + h],
        forall|j: int|
            0 <= j < h ==> color[#[trigger] perm[j] as int] != color[perm[j + h] as int],
        forall|a: int| 0 <= a < h ==> layers[depth]@[base + a] == (#[trigger] color[a] == 1),
        forall|j: int|
            0 <= j < h ==> layers[2 * v - 2 - depth]@[base + j] == (color[#[trigger] perm[j] as int]
                == 1),
    ensures
        sends_mates_apart(layers, v, depth, base, perm),
{
    reveal(sends_mates_apart);
    assert(perm.len() as int / 2 == h);
    assert forall|j: int| 0 <= j < h implies {
        let entry = layers[depth]@;
        let exit = layers[2 * v - 2 - depth]@;
        let a = #[trigger] perm[j] as int;
        let b = perm[j + h] as int;
        &&& exit[base + j] == if a < h {
            entry[base + a]
        } else {
            !entry[base + a - h]
        }
        &&& exit[base + j] == if b < h {
            !entry[base + b]
        } else {
            entry[base + b - h]
        }
    } by {
        let a = perm[j] as int;
        let b = perm[j + h] as int;
        assert(perm[j] < perm.len() && perm[j + h] < perm.len());
        assert(color[a] != color[b]);
        assert(color[a] == 0 || color[a] == 1);
        assert(color[b] == 0 || color[b] == 1);
        if a >= h {
            assert(color[a - h] != color[a - h + h]);
            assert(color[a - h] == 0 || color[a - h] == 1);
        }
        if b >= h {
            assert(color[b - h] != color[b - h + h]);
            assert(color[b - h] == 0 || color[b - h] == 1);
        }
    }
}

/// The outer layers and the two halves of a block are routed, so the block is.
proof fn lemma_routed_halves(
    layers: Seq<Vec<bool>>,
    after_top: Seq<Vec<bool>>,
    v: int,
    depth: int,
    base: int,
    perm: Seq<usize>,
    color: Seq<u8>,
    top: Seq<usize>,
    bot: Seq<usize>,
    h: int,
)
    requires
        0 <= depth < v - 1,
        h == pow2((v - depth - 1) as nat),
        pow2((v - depth) as nat) == 2 * h,
        h >= 1,
        base >= 0,
        base % (2 * h) == 0,
        base + 2 * h <= pow2(v as nat),
        perm.len() == 2 * h,
        perm::is_permutation(perm),
        color.len() == 2 * h,
        top == half(perm, false),
        bot == half(perm, true),
        top.len() == h,
        bot.len() == h,
        forall|a: int| 0 <= a < 2 * h ==> (#[trigger] color[a] == 1) == goes_bottom(perm, a),
        forall|a: int| 0 <= a < h ==> layers[depth]@[base + a] == (#[trigger] color[a] == 1),
        forall|j: int|
            0 <= j < h ==> layers[2 * v - 2 - depth]@[base + j] == (color[#[trigger] perm[j] as int]
                == 1),
        is_routed_block(after_top, v, depth + 1, base, top),
        is_routed_block(layers, v, depth + 1, base + h, bot),
        agree_outside_block(layers, after_top, v, depth + 1, base + h, h),
    ensures
        is_routed_block(layers, v, depth, base, perm),
{
    let d1 = depth + 1;
    assert(perm.len() as int / 2 == h);
    assert forall|l: int, i: int|
        depth <= l < 2 * v - 1 - depth && base <= i < base + perm.len() && is_upper(
            i,
            stride_of(v, l),
        ) implies #[trigger] layers[l]@[i] == routed(perm, v - depth, l - depth, i - base) by {
        if l == depth || l == 2 * v - 2 - depth {
            assert(stride_of(v, l) == h);
            lemma_mod_self_0(2 * h);
            lemma_block_upper(base, 2 * h, h, i - base);
            lemma_small_mod((i - base) as nat, (2 * h) as nat);
            assert(i - base < h);
            assert((color[i - base] == 1) == goes_bottom(perm, i - base));
            let p = perm[i - base] as int;
            assert(p < perm.len());
            assert((color[p] == 1) == goes_bottom(perm, p));
        } else if i - base < h {
            assert(layers[l]@[i] == after_top[l]@[i]);
            assert(after_top[l]@[i] == routed(top, v - d1, l - d1, i - base));
        } else {
            assert(layers[l]@[i] == routed(bot, v - d1, l - d1, i - (base + h)));
        }
    }
}

/// The layers of a block that realizes a permutation deliver it on numbers.
proof fn lemma_block_data(
    layers: Seq<Vec<bool>>,
    v: int,
    depth: int,
    base: int,
    perm: Seq<usize>,
)
    requires
        v >= 1,
        0 <= depth < v,
        0 <= base,
        base + perm.len() <= pow2(v as nat),
        realizes_block(layers, v, depth, base, perm),
    ensures
        forall|x: Seq<int>, j: int|
            x.len() == pow2(v as nat) && 0 <= j < perm.len() ==> #[trigger] layers_out(
                x,
                v,
                layers,
                depth,
                2 * v - 1 - depth,
            )[base + j] == x[base + perm[j]],
{
    assert forall|x: Seq<int>, j: int|
        x.len() == pow2(v as nat) && 0 <= j < perm.len() implies #[trigger] layers_out(
        x,
        v,
        layers,
        depth,
        2 * v - 1 - depth,
    )[base + j] == x[base + perm[j]] by {
        routed_blocks_deliver_the_permutation(x, v, layers, depth, base, perm, j);
    }
}

/// Routing sets switches on upper wires only.
proof fn lemma_routed_upper(perm: Seq<usize>, e: int, l: int, i: int)
    requires
        e >= 1,
        perm.len() == pow2(e as nat),
        0 <= l < 2 * e - 1,
        0 <= i < perm.len(),
        routed(perm, e, l, i),
    ensures
        is_upper(i, stride_of(e, l)),
    decreases e,
{
    lemma2_to64();
    lemma_pow2_unfold(e as nat);
    lemma_pow2_pos((e - 1) as nat);
    let h = pow2((e - 1) as nat) as int;
    assert(perm.len() as int / 2 == h);
    if e == 1 {
        lemma_small_mod(0, 2);
    } else if l == 0 || l == 2 * e - 2 {
        assert(stride_of(e, l) == h);
        lemma_small_mod(i as nat, (2 * h) as nat);
    } else {
        assert(stride_of(e, l) == stride_of(e - 1, l - 1));
        if i < h {
            lemma_routed_upper(half(perm, false), e - 1, l - 1, i);
        } else {
            lemma_routed_upper(half(perm, true), e - 1, l - 1, i - h);
            lemma_stride_divides(e - 1, 0, l - 1);
            lemma_mod_self_0(h);
            lemma_block_upper(h, h, stride_of(e, l), i - h);
        }
    }
}

/// The halves that the colors split a block's permutation into.
proof fn lemma_halves(
    perm: Seq<usize>,
    color: Seq<u8>,
    top: Seq<usize>,
    bot: Seq<usize>,
    h: int,
)
    requires
        h >= 1,
        perm.len() == 2 * h,
        color.len() == 2 * h,
        perm::is_permutation(perm),
        top.len() == h,
        bot.len() == h,
        forall|a: int| 0 <= a < 2 * h ==> #[trigger] color[a] == 0 || color[a] == 1,
        forall|a: int| 0 <= a < 2 * h ==> (#[trigger] color[a] == 1) == goes_bottom(perm, a),
        forall|j: int|
            0 <= j < h ==> #[trigger] top[j] == (if color[perm[j] as int] == 0 {
                perm[j]
            } else {
                perm[j + h]
            }) as int % h,
        forall|j: int|
            0 <= j < h ==> #[trigger] bot[j] == (if color[perm[j] as int] == 0 {
                perm[j + h]
            } else {
                perm[j]
            }) as int % h,
    ensures
        top == half(perm, false),
        bot == half(perm, true),
{
    assert(perm.len() as int / 2 == h);
    assert forall|j: int| 0 <= j < h implies #[trigger] top[j] == half(perm, false)[j] && bot[j]
        == half(perm, true)[j] by {
        let p = perm[j] as int;
        assert(p < perm.len());
        assert((color[p] == 1) == goes_bottom(perm, p));
        assert(bot[j] as int >= 0);
    }
    assert(top =~= half(perm, false));
    assert(bot =~= half(perm, true));
}


proof fn lemma_half_aligned(base: int, h: int)
    requires
        h >= 1,
        base >= 0,
        base % (2 * h) == 0,
    ensures
        base % h == 0,
        (base + h) % h == 0,
{
    let q = base / (2 * h);
    lemma_fundamental_div_mod(base, 2 * h);
    assert(base == (2 * q) * h) by (nonlinear_arith)
        requires
            base == (2 * h) * q,
    ;
    lemma_mod_multiples_basic(2 * q, h);
    assert(base + h == (2 * q + 1) * h) by (nonlinear_arith)
        requires
            base == (2 * q) * h,
    ;
    lemma_mod_multiples_basic(2 * q + 1, h);
}

/// The inputs of one color, taken modulo the half block size, permute the half
/// block: two inputs that agree there are entry mates and differ in color.
proof fn lemma_sub_permutation(
    perm: Seq<usize>,
    color: Seq<u8>,
    sub: Seq<usize>,
    h: int,
    c: u8,
)
    requires
        h >= 1,
        c == 0 || c == 1,
        perm.len() == 2 * h,
        color.len() == 2 * h,
        sub.len() == h,
        perm::is_permutation(perm),
        forall|a: int| 0 <= a < 2 * h ==> #[trigger] color[a] == 0 || color[a] == 1,
        forall|a: int| 0 <= a < h ==> #[trigger] color[a] != color[a + h],
        forall|j: int|
            0 <= j < h ==> color[#[trigger] perm[j] as int] != color[perm[j + h] as int],
        forall|j: int|
            0 <= j < h ==> #[trigger] sub[j] == (if color[perm[j] as int] == c {
                perm[j]
            } else {
                perm[j + h]
            }) as int % h,
    ensures
        perm::is_permutation(sub),
{
    assert forall|j: int, k: int|
        0 <= j < sub.len() && 0 <= k < sub.len() && j != k implies #[trigger] sub[j]
        != #[trigger] sub[k] by {
        let x = if color[perm[j] as int] == c {
            j
        } else {
            j + h
        };
        let y = if color[perm[k] as int] == c {
            k
        } else {
            k + h
        };
        assert(perm[x] != perm[y]);
        let a = perm[x] as int;
        let b = perm[y] as int;
        assert(a < 2 * h && b < 2 * h);
        assert(color[perm[j] as int] != color[perm[j + h] as int]);
        assert(color[perm[k] as int] != color[perm[k + h] as int]);
        assert(color[a] == c && color[b] == c);
        if a % h == b % h {
            assert(a == b || a == b + h || b == a + h) by (nonlinear_arith)
                requires
                    0 <= a < 2 * h,
                    0 <= b < 2 * h,
                    a % h == b % h,
                    h >= 1,
            ;
            assert(color[b] != color[b + h] || b >= h);
            assert(color[a] != color[a + h] || a >= h);
        }
    }
    assert forall|j: int| 0 <= j < sub.len() implies (#[trigger] sub[j]) < sub.len() by {
        assert(perm[j] < perm.len());
        assert(perm[j + h] < perm.len());
    }
}

/// The layers realize `perm`: they are shaped for `2^v` wires, set no switch
/// on a lower wire, and bring to every wire `j` the content of wire `perm[j]`.
pub open spec fn realizes(layers: Seq<Vec<bool>>, v: int, perm: Seq<usize>) -> bool {
    &&& shaped(layers, v)
    &&& lower_wires_clear(layers, v)
    &&& forall|j: int| 0 <= j < perm.len() ==> origin(layers, v, 0, 2 * v - 1, j) == #[trigger] perm[j]
}

/// The stride bit of layer `layer`: the two wires of a switch differ in it.
pub fn stride_bit(v: usize, layer: usize) -> (k: usize)
    requires
        v >= 1,
        layer < 2 * v - 1,
    ensures
        k == stride_bit_of(v as int, layer as int),
        k < v,
{
    if layer < v {
        v - 1 - layer
    } else {
        layer - v + 1
    }
}

/// Number of layers of a network on `2^v` wires.
pub fn num_layers(v: usize) -> (n: usize)
    requires
        1 <= v <= usize::MAX / 2,
    ensures
        n == 2 * v - 1,
{
    2 * v - 1
}

/// `2^k`, for exponents below the word size.
pub fn power_of_two(k: usize) -> (n: usize)
    requires
        k < usize::BITS,
    ensures
        n == pow2(k as nat),
        n >= 1,
{
    proof {
        lemma_usize_pow2_no_overflow(k as nat);
        lemma_usize_shl_is_mul(1, k);
        lemma_pow2_pos(k as nat);
    }
    1usize << k
}

/// Switch settings under which the network carries out `perm`: the output of
/// wire `j` is the input of wire `perm[j]`. One vector of switch bits per
/// layer, indexed by wire; only upper wires carry a set bit. Of the settings
/// that do this, it gives those of [`routed`].
pub fn route(perm: &[usize]) -> (layers: Vec<Vec<bool>>)
    requires
        perm@.len() >= 2,
        exists|v: nat| perm@.len() == #[trigger] pow2(v),
        perm::is_permutation(perm@),
    ensures
        forall|v: nat| perm@.len() == #[trigger] pow2(v) ==> realizes(layers@, v as int, perm@),
        forall|v: nat| perm@.len() == #[trigger] pow2(v) ==> is_routed(layers@, v as int, perm@),
        forall|v: nat|
            v > 1 && perm@.len() == #[trigger] pow2(v) ==> sends_mates_apart(
                layers@,
                v as int,
                0,
                0,
                perm@,
            ),
{
    let n = perm.len();
    let ghost e = choose|v: nat| perm@.len() == #[trigger] pow2(v);
    proof {
        lemma2_to64();
        if e >= usize::BITS {
            lemma_pow2_no_fit(e);
        }
    }
    let mut v: usize = 0;
    let mut m: usize = 1;
    while m < n
        invariant
            n == pow2(e),
            m == pow2(v as nat),
            v <= e < usize::BITS,
            m >= 1,
        decreases n - m,
    {
        proof {
            if v == e {
                assert(m == n);
            }
            lemma_pow2_unfold((v + 1) as nat);
            if v + 1 < e {
                lemma_pow2_strictly_increases((v + 1) as nat, e);
            }
        }
        m = m * 2;
        v = v + 1;
    }
    proof {
        if v < e {
            lemma_pow2_strictly_increases(v as nat, e);
        }
    }
    let count: usize = num_layers(v);
    let mut layers: Vec<Vec<bool>> = Vec::new();
    let mut l: usize = 0;
    while l < count
        invariant
            l <= count,
            layers@.len() == l,
            forall|k: int| 0 <= k < l ==> (#[trigger] layers@[k])@.len() == n,
            forall|k: int, i: int| 0 <= k < l && 0 <= i < n ==> !(#[trigger] layers@[k]@[i]),
        decreases count - l,
    {
        let row: Vec<bool> = vec![false; n];
        layers.push(row);
        l = l + 1;
    }
    proof {
        lemma_small_mod(0, n as nat);
    }
    let ghost clear = layers@;
    route_block(perm, 0, 0, v, &mut layers);
    proof {
        assert forall|j: int| 0 <= j < perm@.len() implies origin(
            layers@,
            v as int,
            0,
            2 * v - 1,
            j,
        ) == #[trigger] perm@[j] by {
            assert(origin(layers@, v as int, 0, 2 * v - 1 - 0, 0 + j) == 0 + perm@[j]);
        }
        assert(is_routed(layers@, v as int, perm@)) by {
            assert forall|l: int, i: int|
                0 <= l < 2 * v - 1 && 0 <= i < perm@.len() implies #[trigger] layers@[l]@[i]
                == routed(perm@, v as int, l, i) by {
                if is_upper(i, stride_of(v as int, l)) {
                    assert(layers@[l]@[i] == routed(perm@, v - 0, l - 0, i - 0));
                } else {
                    assert(layers@[l]@[i] == clear[l]@[i]);
                    if routed(perm@, v as int, l, i) {
                        lemma_routed_upper(perm@, v as int, l, i);
                    }
                }
            }
        }
        assert(lower_wires_clear(layers@, v as int)) by {
            assert forall|l: int, i: int|
                0 <= l < layers@.len() && 0 <= i < layers@[l]@.len()
                    && #[trigger] layers@[l]@[i] implies is_upper(i, stride_of(v as int, l)) by {
                if !is_upper(i, stride_of(v as int, l)) {
                    assert(layers@[l]@[i] == clear[l]@[i]);
                }
            }
        }
        assert forall|w: nat| perm@.len() == #[trigger] pow2(w) implies realizes(
            layers@,
            w as int,
            perm@,
        ) && is_routed(layers@, w as int, perm@) && (w > 1 ==> sends_mates_apart(
            layers@,
            w as int,
            0,
            0,
            perm@,
        )) by {
            if w < v {
                lemma_pow2_strictly_increases(w, v as nat);
            } else if v < w {
                lemma_pow2_strictly_increases(v as nat, w);
            }
        }
    }
    layers
}

proof fn lemma_pow2_no_fit(e: nat)
    requires
        e >= usize::BITS,
    ensures
        pow2(e) > usize::MAX,
{
    lemma_usize_pow2_no_overflow((usize::BITS - 1) as nat);
    lemma_pow2_unfold(usize::BITS as nat);
    if usize::BITS < e {
        lemma_pow2_strictly_increases(usize::BITS as nat, e);
    }
    lemma2_to64();
}

/// The wires after one layer of switches.
pub open spec fn layer_out<T>(state: Seq<T>, v: int, layer: int, bits: Seq<bool>) -> Seq<T> {
    Seq::new(state.len(), |i: int| state[source(bits, stride_of(v, layer), i)])
}

/// The wires after the first `upto` layers.
pub open spec fn network_out<T>(
    input: Seq<T>,
    v: int,
    layers: Seq<Vec<bool>>,
    upto: int,
) -> Seq<T>
    decreases upto,
{
    if upto <= 0 {
        input
    } else {
        layer_out(network_out(input, v, layers, upto - 1), v, upto - 1, layers[upto - 1]@)
    }
}

/// The two wires of a switch trade places under the switch, within `2^v` wires.
pub proof fn lemma_pairs(bits: Seq<bool>, v: int, layer: int, i: int)
    requires
        v >= 1,
        0 <= layer < 2 * v - 1,
        0 <= i < pow2(v as nat),
    ensures
        0 <= source(bits, stride_of(v, layer), i) < pow2(v as nat),
        source(bits, stride_of(v, layer), source(bits, stride_of(v, layer), i)) == i,
        stride_of(v, layer) >= 1,
        is_upper(i, stride_of(v, layer)) ==> !is_upper(
            i + stride_of(v, layer),
            stride_of(v, layer),
        ) && i + stride_of(v, layer) < pow2(v as nat),
        !is_upper(i, stride_of(v, layer)) ==> is_upper(
            i - stride_of(v, layer),
            stride_of(v, layer),
        ) && i >= stride_of(v, layer),
{
    let s = stride_of(v, layer);
    let n = pow2(v as nat) as int;
    lemma_stride_divides(v, 0, layer);
    lemma_small_mod(0, n as nat);
    lemma_block_upper(0, n, s, i);
    let t = 2 * s;
    lemma_fundamental_div_mod(i, t);
    lemma_mod_bound(i, t);
    let q = i / t;
    lemma_mul_is_commutative(t, q);
    if is_upper(i, s) {
        lemma_fundamental_div_mod_converse(i + s, t, q, i % t + s);
    } else {
        lemma_fundamental_div_mod_converse(i - s, t, q, i % t - s);
    }
}

/// A wire is the upper one of its switch exactly when its stride bit is zero.
pub proof fn upper_wires_have_a_clear_stride_bit(i: int, k: nat)
    requires
        i >= 0,
    ensures
        is_upper(i, pow2(k) as int) <==> (i / pow2(k) as int) % 2 == 0,
{
    let s = pow2(k) as int;
    lemma_pow2_pos(k);
    lemma_fundamental_div_mod(i, s);
    lemma_mod_bound(i, s);
    let q = i / s;
    let r = i % s;
    let b = q % 2;
    lemma_fundamental_div_mod(q, 2);
    assert(i == (2 * s) * (q / 2) + (b * s + r)) by (nonlinear_arith)
        requires
            i == s * q + r,
            q == 2 * (q / 2) + b,
    ;
    assert(0 <= b * s + r < 2 * s) by (nonlinear_arith)
        requires
            b == 0 || b == 1,
            0 <= r < s,
    ;
    lemma_fundamental_div_mod_converse(i, 2 * s, q / 2, b * s + r);
    assert(b * s == if b == 0 {
        0
    } else {
        s
    }) by (nonlinear_arith)
        requires
            b == 0 || b == 1,
    ;
}

/// The last wire is the lower one of its switch in every layer.
pub proof fn the_last_wire_is_never_upper(v: int, layer: int)
    requires
        v >= 1,
        0 <= layer < 2 * v - 1,
    ensures
        !is_upper(pow2(v as nat) - 1, stride_of(v, layer)),
{
    lemma_pow2_pos(v as nat);
    lemma_pairs(Seq::empty(), v, layer, pow2(v as nat) - 1);
}

/// A layer permutes the wires, however its switches are set.
pub proof fn layers_keep_the_contents<T>(state: Seq<T>, v: int, layer: int, bits: Seq<bool>)
    requires
        v >= 1,
        0 <= layer < 2 * v - 1,
        state.len() == pow2(v as nat),
    ensures
        layer_out(state, v, layer, bits).to_multiset() == state.to_multiset(),
{
    let s = stride_of(v, layer);
    let f = |i: int| source(bits, s, i);
    assert forall|i: int| 0 <= i < state.len() implies 0 <= #[trigger] f(i) < state.len() by {
        lemma_pairs(bits, v, layer, i);
    }
    assert forall|i: int, j: int|
        0 <= i < state.len() && 0 <= j < state.len() && i != j implies #[trigger] f(i)
        != #[trigger] f(j) by {
        lemma_pairs(bits, v, layer, i);
        lemma_pairs(bits, v, layer, j);
    }
    perm::lemma_rearranged_multiset(state, layer_out(state, v, layer, bits), f);
}

/// The network permutes its inputs, however its switches are set.
pub proof fn networks_keep_the_contents<T>(
    input: Seq<T>,
    v: int,
    layers: Seq<Vec<bool>>,
    upto: int,
)
    requires
        v >= 1,
        0 <= upto <= 2 * v - 1,
        input.len() == pow2(v as nat),
    ensures
        network_out(input, v, layers, upto).len() == input.len(),
        network_out(input, v, layers, upto).to_multiset() == input.to_multiset(),
    decreases upto,
{
    if upto > 0 {
        networks_keep_the_contents(input, v, layers, upto - 1);
        layers_keep_the_contents(
            network_out(input, v, layers, upto - 1),
            v,
            upto - 1,
            layers[upto - 1]@,
        );
    }
}

proof fn lemma_network_origin<T>(
    input: Seq<T>,
    v: int,
    layers: Seq<Vec<bool>>,
    upto: int,
    i: int,
)
    requires
        v >= 1,
        0 <= upto <= 2 * v - 1,
        input.len() == pow2(v as nat),
        0 <= i < input.len(),
    ensures
        network_out(input, v, layers, upto).len() == input.len(),
        network_out(input, v, layers, upto)[i] == input[origin(layers, v, 0, upto, i)],
    decreases upto,
{
    if upto > 0 {
        let y = source(layers[upto - 1]@, stride_of(v, upto - 1), i);
        lemma_pairs(layers[upto - 1]@, v, upto - 1, i);
        lemma_network_origin(input, v, layers, upto - 1, y);
    }
}

/// A routed network delivers, on any inputs, the routed permutation of them.
pub proof fn routed_networks_deliver_the_permutation<T>(
    input: Seq<T>,
    v: int,
    layers: Seq<Vec<bool>>,
    perm: Seq<usize>,
)
    requires
        v >= 1,
        input.len() == pow2(v as nat),
        perm.len() == input.len(),
        realizes(layers, v, perm),
    ensures
        network_out(input, v, layers, 2 * v - 1) == perm::permuted(input, perm),
{
    let out = network_out(input, v, layers, 2 * v - 1);
    networks_keep_the_contents(input, v, layers, 2 * v - 1);
    assert forall|i: int| 0 <= i < input.len() implies out[i] == perm::permuted(input, perm)[i] by {
        lemma_network_origin(input, v, layers, 2 * v - 1, i);
        assert(origin(layers, v, 0, 2 * v - 1, i) == perm[i]);
    }
    assert(out =~= perm::permuted(input, perm));
}

/// The wires after layers `from..upto`.
pub open spec fn layers_out<T>(
    input: Seq<T>,
    v: int,
    layers: Seq<Vec<bool>>,
    from: int,
    upto: int,
) -> Seq<T>
    decreases upto - from,
{
    if upto <= from {
        input
    } else {
        layer_out(layers_out(input, v, layers, from, upto - 1), v, upto - 1, layers[upto - 1]@)
    }
}

proof fn lemma_layers_origin<T>(
    input: Seq<T>,
    v: int,
    layers: Seq<Vec<bool>>,
    from: int,
    upto: int,
    i: int,
)
    requires
        v >= 1,
        0 <= from <= upto <= 2 * v - 1,
        input.len() == pow2(v as nat),
        0 <= i < input.len(),
    ensures
        layers_out(input, v, layers, from, upto).len() == input.len(),
        layers_out(input, v, layers, from, upto)[i] == input[origin(layers, v, from, upto, i)],
    decreases upto - from,
{
    if upto > from {
        let y = source(layers[upto - 1]@, stride_of(v, upto - 1), i);
        lemma_pairs(layers[upto - 1]@, v, upto - 1, i);
        lemma_layers_origin(input, v, layers, from, upto - 1, y);
    }
}

/// The pairs of a layer that meet a block stay inside it, however the switches are
/// set: a wire of a block at `depth` has its content from a wire of the block.
pub proof fn blocks_are_closed(bits: Seq<bool>, v: int, depth: int, layer: int, base: int, i: int)
    requires
        0 <= depth < v,
        depth <= layer < 2 * v - 1 - depth,
        base >= 0,
        base % (pow2((v - depth) as nat) as int) == 0,
        base <= i < base + pow2((v - depth) as nat),
    ensures
        base <= source(bits, stride_of(v, layer), i) < base + pow2((v - depth) as nat),
{
    lemma_stride_divides(v, depth, layer);
    lemma_block_upper(base, pow2((v - depth) as nat) as int, stride_of(v, layer), i - base);
}

/// The layers of a routed block deliver, on any inputs, the routed permutation of
/// the block's wires: wire `base + j` holds what wire `base + perm[j]` held.
pub proof fn routed_blocks_deliver_the_permutation<T>(
    input: Seq<T>,
    v: int,
    layers: Seq<Vec<bool>>,
    depth: int,
    base: int,
    perm: Seq<usize>,
    j: int,
)
    requires
        v >= 1,
        0 <= depth < v,
        input.len() == pow2(v as nat),
        0 <= base,
        base + perm.len() <= input.len(),
        0 <= j < perm.len(),
        realizes_block(layers, v, depth, base, perm),
    ensures
        layers_out(input, v, layers, depth, 2 * v - 1 - depth)[base + j] == input[base + perm[j]],
{
    lemma_layers_origin(input, v, layers, depth, 2 * v - 1 - depth, base + j);
    assert(origin(layers, v, depth, 2 * v - 1 - depth, base + j) == base + perm[j]);
}

/// The upper wire of the switch that wire `i` belongs to.
spec fn upper_of(i: int, stride: int) -> int {
    if is_upper(i, stride) {
        i
    } else {
        i - stride
    }
}

fn swap_wires<T>(state: &mut [T], i: usize, j: usize)
    requires
        i < j < old(state)@.len(),
    ensures
        final(state)@ == old(state)@.update(i as int, old(state)@[j as int]).update(
            j as int,
            old(state)@[i as int],
        ),
{
    let (low, high) = state.split_at_mut(j);
    core::mem::swap(&mut low[i], &mut high[0]);
}

/// Run one layer of switches on the wires, in place.
pub fn apply_layer<T: Clone>(state: &mut [T], v: usize, layer: usize, bits: &[bool])
    requires
        1 <= v < usize::BITS,
        layer < 2 * v - 1,
        old(state)@.len() == pow2(v as nat),
        bits@.len() == pow2(v as nat),
    ensures
        final(state)@ == layer_out(old(state)@, v as int, layer as int, bits@),
        forall|i: int|
            0 <= i < pow2(v as nat) ==> ({
                let s = pow2(
                    (if layer < v {
                        v - 1 - layer
                    } else {
                        layer - v + 1
                    }) as nat,
                ) as int;
                #[trigger] final(state)@[i] == old(state)@[if (i / s) % 2 == 0 {
                    if bits@[i] {
                        i + s
                    } else {
                        i
                    }
                } else {
                    if bits@[i - s] {
                        i - s
                    } else {
                        i
                    }
                }]
            }),
{
    let n = bits.len();
    let ghost before = state@;
    let ghost vi = v as int;
    let ghost li = layer as int;
    let stride: usize = power_of_two(stride_bit(v, layer));
    let ghost s = stride as int;
    let mut i: usize = 0;
    proof {
        assert forall|w: int| 0 <= w < n implies 0 <= #[trigger] upper_of(w, s) by {
            lemma_pairs(bits@, vi, li, w);
        }
    }
    while i < n
        invariant
            i <= n,
            1 <= v,
            layer < 2 * v - 1,
            vi == v,
            li == layer,
            n == pow2(v as nat),
            bits@.len() == n,
            before.len() == n,
            state@.len() == n,
            s == stride,
            s >= 1,
            s == stride_of(vi, li),
            forall|w: int|
                #![trigger state@[w]]
                0 <= w < n ==> state@[w] == if upper_of(w, s) < i {
                    before[source(bits@, s, w)]
                } else {
                    before[w]
                },
        decreases n - i,
    {
        proof {
            lemma_pairs(bits@, vi, li, i as int);
            assert(is_upper(i as int, s) <==> (i / stride) % 2 == 0) by {
                upper_wires_have_a_clear_stride_bit(i as int, stride_bit_of(vi, li) as nat);
            }
        }
        let ghost stepped = state@;
        if (i / stride) % 2 == 0 && bits[i] {
            swap_wires(state, i, i + stride);
        }
        proof {
            assert forall|w: int|
                #![trigger state@[w]]
                0 <= w < n implies state@[w] == if upper_of(w, s) < i + 1 {
                before[source(bits@, s, w)]
            } else {
                before[w]
            } by {
                lemma_pairs(bits@, vi, li, w);
                assert(stepped[w] == stepped[w]);
                assert(is_upper(i as int, s) ==> stepped[i + s] == before[i + s]);
            }
        }
        i = i + 1;
    }
    proof {
        assert forall|w: int| 0 <= w < n implies #[trigger] state@[w] == before[source(
            bits@,
            s,
            w,
        )] by {
            lemma_pairs(bits@, vi, li, w);
            upper_wires_have_a_clear_stride_bit(w, stride_bit_of(vi, li) as nat);
        }
        assert forall|w: int| 0 <= w < n implies #[trigger] is_upper(w, s) == ((w / s) % 2 == 0) by {
            upper_wires_have_a_clear_stride_bit(w, stride_bit_of(vi, li) as nat);
        }
    }
    assert(state@ =~= layer_out(before, vi, li, bits@));
}

} // verus!
