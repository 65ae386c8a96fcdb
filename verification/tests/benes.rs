use rand::seq::SliceRandom;
use zkmemory::zincplus::benes::{
    apply_layer, invert_permutation, num_layers, power_of_two, route, route_block, stride_bit,
};

/// Run the full network on the identity input.
fn simulate(perm: &[usize]) -> Vec<usize> {
    let n = perm.len();
    let v = n.trailing_zeros() as usize;
    let layers = route(perm);
    let mut state: Vec<usize> = (0..n).collect();
    for (layer, bits) in layers.iter().enumerate() {
        apply_layer(&mut state, v, layer, bits);
    }
    state
}

fn check(perm: &[usize]) {
    assert_eq!(simulate(perm), perm, "network does not realize {perm:?}");
}

#[test]
fn test_v1_both_permutations() {
    check(&[0, 1]);
    check(&[1, 0]);
}

fn permute_all(perm: &mut [usize; 4], k: usize) {
    if k == 4 {
        check(perm);
        return;
    }
    for i in k..4 {
        perm.swap(k, i);
        permute_all(perm, k + 1);
        perm.swap(k, i);
    }
}

#[test]
fn test_v2_all_permutations() {
    let mut perm = [0usize, 1, 2, 3];
    permute_all(&mut perm, 0);
}

#[test]
fn test_identity_and_reversal() {
    for v in 1..=8 {
        let n = 1usize << v;
        let identity: Vec<usize> = (0..n).collect();
        let reversal: Vec<usize> = (0..n).rev().collect();
        check(&identity);
        check(&reversal);
    }
}

#[test]
fn test_random_permutations() {
    let mut rng = rand::rng();
    for v in 1..=8 {
        let n = 1usize << v;
        for _ in 0..20 {
            let mut perm: Vec<usize> = (0..n).collect();
            perm.shuffle(&mut rng);
            check(&perm);
        }
    }
}

#[test]
fn test_rotations() {
    for v in 1..=7 {
        let n = 1usize << v;
        for s in 0..n {
            let perm: Vec<usize> = (0..n).map(|j| (j + s) % n).collect();
            check(&perm);
        }
    }
}

#[test]
fn test_switch_bits_only_on_upper_wires() {
    let mut rng = rand::rng();
    let v = 5;
    let n = 1usize << v;
    let mut perm: Vec<usize> = (0..n).collect();
    perm.shuffle(&mut rng);
    let layers = route(&perm);
    assert_eq!(layers.len(), num_layers(v));
    for (layer, bits) in layers.iter().enumerate() {
        let stride = 1usize << stride_bit(v, layer);
        for (i, &bit) in bits.iter().enumerate() {
            if i & stride != 0 {
                assert!(!bit, "switch bit set on lower wire {i} of layer {layer}");
            }
        }
    }
}

#[test]
fn stride_bits_go_down_and_up_again() {
    let bits: Vec<usize> = (0..num_layers(3)).map(|layer| stride_bit(3, layer)).collect();
    assert_eq!(bits, [2, 1, 0, 1, 2]);
    assert_eq!(power_of_two(0), 1);
    assert_eq!(power_of_two(10), 1024);
}

#[test]
fn a_layer_exchanges_the_pairs_whose_switch_is_set() {
    let mut state = ["a", "b", "c", "d", "e", "f", "g", "h"];
    let bits = [false, true, false, false, false, false, true, false];
    // Layer 1 of a network on eight wires pairs wires two apart; the bit of
    // wire six, a lower wire, is not read.
    apply_layer(&mut state, 3, 1, &bits);
    assert_eq!(state, ["a", "d", "c", "b", "e", "f", "g", "h"]);
}

#[test]
fn any_switches_keep_the_contents() {
    let v = 4;
    let n = 1usize << v;
    let mut state: Vec<usize> = (0..n).collect();
    for layer in 0..num_layers(v) {
        let bits: Vec<bool> = (0..n).map(|i| (i * 7 + layer * 3) % 5 < 2).collect();
        apply_layer(&mut state, v, layer, &bits);
    }
    state.sort();
    assert_eq!(state, (0..n).collect::<Vec<usize>>());
}

#[test]
fn a_permutation_is_undone_by_its_inverse() {
    let perm = [3usize, 0, 2, 1];
    assert_eq!(invert_permutation(&perm), [1, 3, 2, 0]);
}

fn set_bits(layer: &[bool]) -> Vec<usize> {
    (0..layer.len()).filter(|&i| layer[i]).collect()
}

#[test]
fn switches_are_set_as_worked_out_by_hand() {
    let layers = route(&[0, 4, 1, 2, 5, 3, 6, 7]);
    let none: [usize; 0] = [];
    assert_eq!(layers.len(), 5);
    assert_eq!(set_bits(&layers[0]), none);
    assert_eq!(set_bits(&layers[1]), [1]);
    assert_eq!(set_bits(&layers[2]), [2, 4]);
    assert_eq!(set_bits(&layers[3]), none);
    assert_eq!(set_bits(&layers[4]), [1]);
}

#[test]
fn the_lowest_input_of_a_cycle_goes_through_the_top() {
    // Outputs two and three are exit mates of zero and one, so inputs 0 and 3 are
    // on one side and inputs 1 and 2 on the other: one cycle, which begins at 0.
    let layers = route(&[0, 3, 1, 2]);
    assert_eq!(set_bits(&layers[0]), [1]);
    // Two cycles, of inputs 0 and 2 and of inputs 1 and 3: each begins on the top.
    let layers = route(&[2, 3, 0, 1]);
    assert!(set_bits(&layers[0]).is_empty());
    assert_eq!(set_bits(&layers[2]), [0, 1]);
}

#[test]
fn the_layers_of_a_block_deliver_its_permutation() {
    let layers = route(&[0, 4, 1, 2, 5, 3, 6, 7]);
    let mut state: Vec<usize> = (0..8).collect();
    for layer in 1..4 {
        apply_layer(&mut state, 3, layer, &layers[layer]);
    }
    assert_eq!(state, [0, 3, 1, 2, 5, 4, 6, 7]);
}

#[test]
fn a_block_is_routed_whatever_the_layers_held() {
    // The lower half of a network on eight wires, in layers one to three.
    let perm = [2usize, 0, 3, 1];
    for fill in [false, true] {
        let mut layers = vec![vec![fill; 8]; 5];
        route_block(&perm, 4, 1, 3, &mut layers);
        let mut state: Vec<usize> = (0..8).map(|i| 10 * i).collect();
        let before = state.clone();
        for layer in 1..4 {
            apply_layer(&mut state, 3, layer, &layers[layer]);
        }
        for (j, &from) in perm.iter().enumerate() {
            assert_eq!(state[4 + j], before[4 + from]);
        }
        let alone = route(&perm);
        for (l, layer) in layers.iter().enumerate() {
            let stride = 1 << stride_bit(3, l);
            for (i, &bit) in layer.iter().enumerate() {
                let upper = i & stride == 0;
                if (1..4).contains(&l) && i >= 4 && upper {
                    assert_eq!(bit, alone[l - 1][i - 4]);
                } else {
                    assert_eq!(bit, fill);
                }
            }
        }
    }
}
