//! Routing on the switching network.
//!
//! On `2^v` wires, layer `l` pairs the wires whose numbers differ in bit
//! `v - 1 - l`, and from layer `v` on in bit `l - v + 1`.

use crate::perm;
use crate::zincplus::benes;
use vstd::arithmetic::div_mod::*;
use vstd::arithmetic::power2::*;
use vstd::prelude::*;

verus! {

/// The stride bits go from `v - 1` down to zero and up again.
pub proof fn stride_bits_go_down_and_up(v: usize, l: usize, k: usize)
    requires
        v >= 1,
        l < 2 * v - 1,
        call_ensures(benes::stride_bit, (v, l), k),
    ensures
        k == if l < v {
            v - 1 - l
        } else {
            l - v + 1
        },
{
}

/// What a routed network looks like: a layer of one bit per wire for each of the
/// `2v - 1` layers, and a set bit only on a wire whose number has the stride bit
/// clear.
pub proof fn routes_set_switches_on_upper_wires(
    permutation: &[usize],
    layers: Vec<Vec<bool>>,
    v: nat,
)
    requires
        v >= 1,
        permutation@.len() == pow2(v),
        call_ensures(benes::route, (permutation,), layers),
    ensures
        layers@.len() == 2 * v - 1,
        forall|l: int| 0 <= l < 2 * v - 1 ==> (#[trigger] layers@[l])@.len() == pow2(v),
        forall|l: int, i: int|
            0 <= l < 2 * v - 1 && 0 <= i < pow2(v) && #[trigger] layers@[l]@[i] ==> (i / pow2(
                (if l < v {
                    v - 1 - l
                } else {
                    l - v + 1
                }) as nat,
            ) as int) % 2
                == 0,
{
    assert(benes::realizes(layers@, v as int, permutation@));
    assert forall|l: int, i: int|
        0 <= l < 2 * v - 1 && 0 <= i < pow2(v) && #[trigger] layers@[l]@[i] implies (i / pow2(
                (if l < v {
                    v - 1 - l
                } else {
                    l - v + 1
                }) as nat,
            ) as int) % 2
        == 0 by {
        assert(layers@[l]@.len() == pow2(v));
        benes::upper_wires_have_a_clear_stride_bit(
            i,
            benes::stride_bit_of(v as int, l) as nat,
        );
    }
}

/// The states of the wires follow each other through a layer.
proof fn lemma_step_is_layer<T>(
    before: Seq<T>,
    after: Seq<T>,
    v: int,
    l: int,
    bits: Seq<bool>,
)
    requires
        v >= 1,
        0 <= l < 2 * v - 1,
        before.len() == pow2(v as nat),
        after.len() == pow2(v as nat),
        forall|i: int|
            0 <= i < pow2(v as nat) && (i / benes::stride_of(v, l)) % 2 == 0 ==> {
                &&& #[trigger] after[i] == before[if bits[i] {
                    i + benes::stride_of(v, l)
                } else {
                    i
                }]
                &&& after[i + benes::stride_of(v, l)] == before[if bits[i] {
                    i
                } else {
                    i + benes::stride_of(v, l)
                }]
            },
    ensures
        after == benes::layer_out(before, v, l, bits),
{
    let s = benes::stride_of(v, l);
    let out = benes::layer_out(before, v, l, bits);
    assert forall|i: int| 0 <= i < after.len() implies after[i] == out[i] by {
        benes::lemma_pairs(bits, v, l, i);
        benes::upper_wires_have_a_clear_stride_bit(i, benes::stride_bit_of(v, l) as nat);
        if !benes::is_upper(i, s) {
            let u = i - s;
            benes::lemma_pairs(bits, v, l, u);
            benes::upper_wires_have_a_clear_stride_bit(u, benes::stride_bit_of(v, l) as nat);
            assert(after[u] == before[if bits[u] {
                u + s
            } else {
                u
            }]);
        }
    }
    assert(after =~= out);
}

/// A routed network delivers the permutation: where the wires go through the
/// layers one by one, each pair trading contents where the switch of its upper
/// wire is set and keeping them elsewhere, wire `j` ends with what wire
/// `permutation[j]` began with.
pub proof fn routes_deliver_the_permutation<T>(
    permutation: &[usize],
    layers: Vec<Vec<bool>>,
    v: nat,
    states: Seq<Seq<T>>,
)
    requires
        v >= 1,
        permutation@.len() == pow2(v),
        call_ensures(benes::route, (permutation,), layers),
        states.len() == 2 * v,
        forall|l: int| 0 <= l < 2 * v ==> (#[trigger] states[l]).len() == pow2(v),
        forall|l: int, i: int|
            0 < l < 2 * v && 0 <= i < pow2(v) && (i / pow2(
                (if l <= v {
                    v - l
                } else {
                    l - v
                }) as nat,
            ) as int) % 2 == 0 ==> {
                let s = pow2(
                (if l <= v {
                    v - l
                } else {
                    l - v
                }) as nat,
            ) as int;
                &&& #[trigger] states[l][i] == states[l - 1][if layers@[l - 1]@[i] {
                    i + s
                } else {
                    i
                }]
                &&& states[l][i + s] == states[l - 1][if layers@[l - 1]@[i] {
                    i
                } else {
                    i + s
                }]
            },
    ensures
        forall|j: int|
            0 <= j < pow2(v) ==> #[trigger] states[2 * v - 1][j] == states[0][permutation@[j] as int],
{
    lemma_states(permutation, layers, v, states, 2 * v - 1);
    benes::routed_networks_deliver_the_permutation(states[0], v as int, layers@, permutation@);
    assert forall|j: int| 0 <= j < pow2(v) implies #[trigger] states[2 * v - 1][j]
        == states[0][permutation@[j] as int] by {
        assert(perm::permuted(states[0], permutation@)[j] == states[0][permutation@[j] as int]);
    }
}

proof fn lemma_states<T>(
    permutation: &[usize],
    layers: Vec<Vec<bool>>,
    v: nat,
    states: Seq<Seq<T>>,
    n: int,
)
    requires
        v >= 1,
        0 <= n < 2 * v,
        states.len() == 2 * v,
        forall|l: int| 0 <= l < 2 * v ==> (#[trigger] states[l]).len() == pow2(v),
        forall|l: int, i: int|
            0 < l < 2 * v && 0 <= i < pow2(v) && (i / pow2(
                (if l <= v {
                    v - l
                } else {
                    l - v
                }) as nat,
            ) as int) % 2 == 0 ==> {
                let s = pow2(
                (if l <= v {
                    v - l
                } else {
                    l - v
                }) as nat,
            ) as int;
                &&& #[trigger] states[l][i] == states[l - 1][if layers@[l - 1]@[i] {
                    i + s
                } else {
                    i
                }]
                &&& states[l][i + s] == states[l - 1][if layers@[l - 1]@[i] {
                    i
                } else {
                    i + s
                }]
            },
    ensures
        states[n] == benes::network_out(states[0], v as int, layers@, n),
    decreases n,
{
    if n > 0 {
        let l = n - 1;
        lemma_states(permutation, layers, v, states, l);
        let s = benes::stride_of(v as int, l);
        assert forall|i: int| 0 <= i < pow2(v) && (i / s) % 2 == 0 implies {
            &&& #[trigger] states[n][i] == states[l][if layers@[l]@[i] {
                i + s
            } else {
                i
            }]
            &&& states[n][i + s] == states[l][if layers@[l]@[i] {
                i
            } else {
                i + s
            }]
        } by {
            assert(states[n][i] == states[n][i]);
        }
        lemma_step_is_layer(states[l], states[n], v as int, l, layers@[l]@);
    }
}

/// In the outer layers of a network on four wires or more, an input goes through
/// the bottom half exactly when the entry switch of its pair says so, and an
/// output takes it from there: what output `j` of the upper half takes is on the
/// bottom exactly when exit switch `j` is set, and what output `j + h` takes
/// exactly when it is not. No other bit of these layers is set.
pub proof fn outer_layers_send_mates_apart(
    permutation: &[usize],
    layers: Vec<Vec<bool>>,
    v: nat,
    h: int,
    j: int,
)
    requires
        v >= 2,
        permutation@.len() == pow2(v),
        forall|j: int|
            0 <= j < permutation@.len() ==> (#[trigger] permutation@[j]) < permutation@.len(),
        forall|i: int, j: int|
            0 <= i < permutation@.len() && 0 <= j < permutation@.len() && i != j
                ==> #[trigger] permutation@[i] != #[trigger] permutation@[j],
        h == pow2((v - 1) as nat),
        call_ensures(benes::route, (permutation,), layers),
        0 <= j < h,
    ensures
        ({
            let a = permutation@[j] as int;
            let b = permutation@[j + h] as int;
            &&& layers@[2 * v - 2]@[j] == if a < h {
                layers@[0]@[a]
            } else {
                !layers@[0]@[a - h]
            }
            &&& layers@[2 * v - 2]@[j] == if b < h {
                !layers@[0]@[b]
            } else {
                layers@[0]@[b - h]
            }
            &&& !layers@[0]@[j + h]
            &&& !layers@[2 * v - 2]@[j + h]
        }),
{
    lemma_pow2_unfold(v);
    lemma_pow2_pos((v - 1) as nat);
    let p = permutation@;
    let vi = v as int;
    assert(benes::realizes(layers@, vi, p));
    assert(benes::is_routed(layers@, vi, p));
    assert(p.len() as int / 2 == h);
    assert(p[j] < p.len() && p[j + h] < p.len());
    assert(layers@[2 * v - 2]@[j + h] == benes::routed(p, vi, 2 * vi - 2, j + h));
    assert(layers@[0]@[j + h] == benes::routed(p, vi, 0, j + h));
    assert(benes::sends_mates_apart(layers@, vi, 0, 0, p));
    reveal(benes::sends_mates_apart);
    assert(p[j] == p[j]);
}

/// The sequence that undoes a permutation.
spec fn inverse_of(p: Seq<usize>) -> Seq<usize> {
    Seq::new(p.len(), |i: int| benes::destination(p, i) as usize)
}

proof fn lemma_inverse_of(p: Seq<usize>)
    requires
        perm::is_permutation(p),
        p.len() <= usize::MAX,
    ensures
        benes::inverts(p, inverse_of(p)),
{
    let inv = inverse_of(p);
    assert forall|i: int| 0 <= i < inv.len() implies (#[trigger] inv[i]) < p.len() && p[inv[i] as int]
        == i by {
        let k = perm::lemma_permutation_reaches(p, i);
        let d = benes::destination(p, i);
        assert(0 <= d < p.len() && p[d] == i);
    }
    assert forall|j: int| 0 <= j < p.len() implies inv[(#[trigger] p[j]) as int] == j by {
        let i = p[j] as int;
        assert(p[inv[i] as int] == i);
    }
}

/// Input zero goes through the top. More generally an input of the upper half
/// goes through the bottom only where a lower input is joined to it: by steps
/// between wires `h` apart and between inputs whose outputs are `h` apart.
pub proof fn bottom_inputs_are_joined_to_a_lower_one(
    permutation: &[usize],
    layers: Vec<Vec<bool>>,
    v: nat,
    h: int,
    a: int,
) -> (path: Seq<int>)
    requires
        v >= 2,
        permutation@.len() == pow2(v),
        forall|j: int|
            0 <= j < permutation@.len() ==> (#[trigger] permutation@[j]) < permutation@.len(),
        forall|i: int, j: int|
            0 <= i < permutation@.len() && 0 <= j < permutation@.len() && i != j
                ==> #[trigger] permutation@[i] != #[trigger] permutation@[j],
        h == pow2((v - 1) as nat),
        call_ensures(benes::route, (permutation,), layers),
        0 <= a < h,
        layers@[0]@[a],
    ensures
        path.len() > 0,
        path[0] == a,
        path.last() < a,
        forall|n: int|
            0 <= n < path.len() - 1 ==> {
                ||| #[trigger] path[n] == path[n + 1] + h
                ||| path[n + 1] == path[n] + h
                ||| exists|j: int|
                    0 <= j < h && {
                        ||| #[trigger] permutation@[j] == path[n] && permutation@[j + h] == path[n + 1]
                        ||| permutation@[j] == path[n + 1] && permutation@[j + h] == path[n]
                    }
            },
{
    lemma_pow2_unfold(v);
    lemma_pow2_pos((v - 1) as nat);
    let p = permutation@;
    assert(benes::is_routed(layers@, v as int, p));
    assert(layers@[0]@[a] == benes::routed(p, v as int, 0, a));
    let k = lemma_lower(p, h, a);
    assert(p.len() == permutation.len());
    let path = lemma_lower_path(p, h, a, k);
    assert forall|n: int| 0 <= n < path.len() - 1 implies {
        ||| #[trigger] path[n] == path[n + 1] + h
        ||| path[n + 1] == path[n] + h
        ||| exists|j: int|
            0 <= j < h && {
                ||| #[trigger] permutation@[j] == path[n] && permutation@[j + h] == path[n + 1]
                ||| permutation@[j] == path[n + 1] && permutation@[j + h] == path[n]
            }
    } by {
        assert(joined(p, h, path[n], path[n + 1]));
    }
    path
}

proof fn lemma_lower(p: Seq<usize>, h: int, a: int) -> (k: int)
    requires
        p.len() == 2 * h,
        benes::goes_bottom(p, a),
    ensures
        benes::walk(p, a, k) < a || benes::mate(benes::walk(p, a, k), h) < a,
{
    assert(p.len() as int / 2 == h);
    assert(benes::walk(p, a, 0) == a);
    choose|k: int|
        (#[trigger] benes::walk(p, a, k)) < a || benes::mate(
            benes::walk(p, a, k),
            p.len() as int / 2,
        ) < a
}

proof fn lemma_lower_path(p: Seq<usize>, h: int, a: int, k: int) -> (path: Seq<int>)
    requires
        perm::is_permutation(p),
        p.len() == 2 * h,
        p.len() <= usize::MAX,
        h >= 1,
        0 <= a < h,
        benes::walk(p, a, k) < a || benes::mate(benes::walk(p, a, k), h) < a,
    ensures
        path.len() > 0,
        path[0] == a,
        path.last() < a,
        forall|n: int| 0 <= n < path.len() - 1 ==> joined(p, h, #[trigger] path[n], path[n + 1]),
{
    lemma_inverse_of(p);
    let path = lemma_walked(p, h, a, k);
    if benes::walk(p, a, k) < a {
        path
    } else {
        benes::lemma_walk_range(p, inverse_of(p), h, a, k);
        let w = benes::walk(p, a, k);
        let more = path.push(benes::mate(w, h));
        assert(more.last() < a);
        assert forall|n: int| 0 <= n < more.len() - 1 implies joined(
            p,
            h,
            #[trigger] more[n],
            more[n + 1],
        ) by {
            if n < path.len() - 1 {
                assert(joined(p, h, path[n], path[n + 1]));
            } else {
                assert(more[n] == w && more[n + 1] == benes::mate(w, h));
            }
        }
        more
    }
}

/// Two inputs are entry mates or exit mates.
spec fn joined(p: Seq<usize>, h: int, x: int, y: int) -> bool {
    ||| x == y + h
    ||| y == x + h
    ||| exists|j: int|
        0 <= j < h && {
            ||| #[trigger] p[j] == x && p[j + h] == y
            ||| p[j] == y && p[j + h] == x
        }
}

proof fn lemma_exit_joined(p: Seq<usize>, h: int, x: int)
    requires
        perm::is_permutation(p),
        p.len() == 2 * h,
        h >= 1,
        0 <= x < 2 * h,
    ensures
        joined(p, h, x, benes::exit_mate_of(p, x)),
        joined(p, h, benes::exit_mate_of(p, x), x),
{
    let k = perm::lemma_permutation_reaches(p, x);
    let d = benes::destination(p, x);
    assert(0 <= d < p.len() && p[d] == x);
    assert(p.len() as int / 2 == h);
    if d < h {
        assert(p[d] == x && p[d + h] == benes::exit_mate_of(p, x));
    } else {
        assert(p[d - h] == benes::exit_mate_of(p, x) && p[d - h + h] == x);
    }
}

proof fn lemma_walked(p: Seq<usize>, h: int, a: int, k: int) -> (path: Seq<int>)
    requires
        perm::is_permutation(p),
        benes::inverts(p, inverse_of(p)),
        p.len() == 2 * h,
        h >= 1,
        0 <= a < 2 * h,
    ensures
        path.len() > 0,
        path[0] == a,
        path.last() == benes::walk(p, a, k),
        forall|n: int| 0 <= n < path.len() - 1 ==> joined(p, h, #[trigger] path[n], path[n + 1]),
    decreases (if k < 0 {
        -k
    } else {
        k
    }),
{
    let inv = inverse_of(p);
    assert(p.len() as int / 2 == h);
    if k == 0 {
        seq![a]
    } else {
        let back = if k > 0 {
            k - 1
        } else {
            k + 1
        };
        let path = lemma_walked(p, h, a, back);
        let w = benes::walk(p, a, back);
        benes::lemma_walk_range(p, inv, h, a, back);
        let via = if k > 0 {
            benes::mate(w, h)
        } else {
            benes::exit_mate_of(p, w)
        };
        benes::lemma_exit_mate_of(p, inv, h, w);
        lemma_exit_joined(p, h, w);
        lemma_exit_joined(p, h, via);
        let more = path.push(via).push(benes::walk(p, a, k));
        assert forall|n: int| 0 <= n < more.len() - 1 implies joined(
            p,
            h,
            #[trigger] more[n],
            more[n + 1],
        ) by {
            if n < path.len() - 1 {
                assert(joined(p, h, path[n], path[n + 1]));
            }
        }
        more
    }
}

/// The layers between the outer ones are those of the two halves, routed for the
/// permutations that the exit switches leave to them.
pub proof fn inner_layers_are_those_of_the_halves(
    permutation: &[usize],
    layers: Vec<Vec<bool>>,
    v: nat,
    h: int,
    top: &[usize],
    bottom: &[usize],
    top_layers: Vec<Vec<bool>>,
    bottom_layers: Vec<Vec<bool>>,
)
    requires
        v >= 2,
        permutation@.len() == pow2(v),
        forall|j: int|
            0 <= j < permutation@.len() ==> (#[trigger] permutation@[j]) < permutation@.len(),
        forall|i: int, j: int|
            0 <= i < permutation@.len() && 0 <= j < permutation@.len() && i != j
                ==> #[trigger] permutation@[i] != #[trigger] permutation@[j],
        h == pow2((v - 1) as nat),
        call_ensures(benes::route, (permutation,), layers),
        top@.len() == h,
        bottom@.len() == h,
        forall|j: int|
            0 <= j < h ==> #[trigger] top@[j] == (if layers@[2 * v - 2]@[j] {
                permutation@[j + h]
            } else {
                permutation@[j]
            }) as int % h,
        forall|j: int|
            0 <= j < h ==> #[trigger] bottom@[j] == (if layers@[2 * v - 2]@[j] {
                permutation@[j]
            } else {
                permutation@[j + h]
            }) as int % h,
        call_ensures(benes::route, (top,), top_layers),
        call_ensures(benes::route, (bottom,), bottom_layers),
    ensures
        forall|l: int, i: int|
            0 <= l < 2 * v - 3 && 0 <= i < h ==> #[trigger] top_layers@[l]@[i] == layers@[l + 1]@[i],
        forall|l: int, i: int|
            0 <= l < 2 * v - 3 && 0 <= i < h ==> #[trigger] bottom_layers@[l]@[i] == layers@[l
                + 1]@[i + h],
{
    lemma_pow2_unfold(v);
    lemma_pow2_pos((v - 1) as nat);
    let p = permutation@;
    let vi = v as int;
    let w = (v - 1) as nat;
    assert(benes::is_routed(layers@, vi, p));
    assert(p.len() as int / 2 == h);
    assert(top@.len() == pow2(w) && bottom@.len() == pow2(w));
    assert(benes::is_routed(top_layers@, w as int, top@));
    assert(benes::is_routed(bottom_layers@, w as int, bottom@));
    assert forall|j: int| 0 <= j < h implies #[trigger] top@[j] == benes::half(p, false)[j]
        && bottom@[j] == benes::half(p, true)[j] by {
        assert(layers@[2 * v - 2]@[j] == benes::routed(p, vi, 2 * vi - 2, j));
        assert(bottom@[j] >= 0);
    }
    assert(top@ =~= benes::half(p, false));
    assert(bottom@ =~= benes::half(p, true));
    assert forall|l: int, i: int|
        0 <= l < 2 * v - 3 && 0 <= i < h implies #[trigger] top_layers@[l]@[i] == layers@[l
        + 1]@[i] by {
        assert(layers@[l + 1]@[i] == benes::routed(p, vi, l + 1, i));
        assert(top_layers@[l]@[i] == benes::routed(top@, w as int, l, i));
    }
    assert forall|l: int, i: int|
        0 <= l < 2 * v - 3 && 0 <= i < h implies #[trigger] bottom_layers@[l]@[i] == layers@[l
        + 1]@[i + h] by {
        assert(layers@[l + 1]@[i + h] == benes::routed(p, vi, l + 1, i + h));
        assert(bottom_layers@[l]@[i] == benes::routed(bottom@, w as int, l, i));
    }
}

/// Every permutation of at least two wires, as many as a power of two, is routed.
pub proof fn all_permutations_are_routed(permutation: &[usize], v: nat)
    requires
        v >= 1,
        permutation@.len() == pow2(v),
        forall|j: int|
            0 <= j < permutation@.len() ==> (#[trigger] permutation@[j]) < permutation@.len(),
        forall|i: int, j: int|
            0 <= i < permutation@.len() && 0 <= j < permutation@.len() && i != j
                ==> #[trigger] permutation@[i] != #[trigger] permutation@[j],
    ensures
        call_requires(benes::route, (permutation,)),
        call_requires(benes::invert_permutation, (permutation,)),
{
    lemma2_to64();
    if v > 1 {
        lemma_pow2_strictly_increases(1, v);
    }
    assert(perm::is_permutation(permutation@));
}

/// An inverse takes each wire back to where the permutation took it from, both
/// ways.
pub proof fn inverses_undo(permutation: &[usize], inverse: Vec<usize>)
    requires
        call_ensures(benes::invert_permutation, (permutation,), inverse),
    ensures
        inverse@.len() == permutation@.len(),
        forall|i: int| 0 <= i < inverse@.len() ==> permutation@[#[trigger] inverse@[i] as int] == i,
        forall|j: int|
            0 <= j < permutation@.len() ==> inverse@[#[trigger] permutation@[j] as int] == j,
{
}

/// On two wires the switch is set exactly when they trade places.
pub proof fn a_single_switch_is_set_to_trade_places(permutation: &[usize], layers: Vec<Vec<bool>>)
    requires
        permutation@.len() == 2,
        call_ensures(benes::route, (permutation,), layers),
    ensures
        layers@.len() == 1,
        layers@[0]@.len() == 2,
        layers@[0]@[0] == (permutation@[0] == 1),
        !layers@[0]@[1],
{
    lemma2_to64();
    assert(permutation@.len() == pow2(1));
    assert(benes::realizes(layers@, 1, permutation@));
    assert(benes::is_routed(layers@, 1, permutation@));
    assert(layers@[0]@[0] == benes::routed(permutation@, 1, 0, 0));
    assert(layers@[0]@[1] == benes::routed(permutation@, 1, 0, 1));
}

/// Counts of layers and powers of two.
pub proof fn layers_and_wires_are_counted(v: usize, layers: usize, wires: usize)
    requires
        1 <= v < usize::BITS,
        call_ensures(benes::num_layers, (v,), layers),
        call_ensures(benes::power_of_two, (v,), wires),
    ensures
        call_requires(benes::num_layers, (v,)),
        call_requires(benes::power_of_two, (v,)),
        layers == 2 * v - 1,
        wires == pow2(v as nat),
{
}

/// Whatever the layers held, routing a block sets its upper wires as routing the
/// permutation alone does, and changes nothing else.
pub proof fn blocks_are_routed_as_networks(
    permutation: &[usize],
    base: usize,
    depth: usize,
    v: usize,
    layers: &mut Vec<Vec<bool>>,
    alone: Vec<Vec<bool>>,
    l: int,
    i: int,
)
    requires
        depth < v,
        permutation@.len() == pow2((v - depth) as nat),
        base as int % (permutation@.len() as int) == 0,
        call_ensures(benes::route_block, (permutation, base, depth, v, layers), ()),
        call_ensures(benes::route, (permutation,), alone),
        0 <= l < 2 * v - 1,
        0 <= i < pow2(v as nat),
    ensures
        final(layers)@[l]@[i] == if depth <= l < 2 * v - 1 - depth && base <= i < base
            + permutation@.len() && (i / pow2(
            (if l < v {
                v - 1 - l
            } else {
                l - v + 1
            }) as nat,
        ) as int) % 2 == 0 {
            alone@[l - depth]@[i - base]
        } else {
            old(layers)@[l]@[i]
        },
{
    benes::upper_wires_have_a_clear_stride_bit(
        i,
        benes::stride_bit_of(v as int, l) as nat,
    );
}

} // verus!
