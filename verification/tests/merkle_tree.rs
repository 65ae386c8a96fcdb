use ff::PrimeField;
use rand::{Rng, RngExt};
use zkmemory::base::B256;
use zkmemory::commitment::field::Fp;
use zkmemory::commitment::merkle_tree::{
    assignment_holds, hash_inputs, merkle_tree_commit_fp, MerkleLevel, MerkleTreeCircuit,
    MerkleTreeConfig, MerkleWitness,
};

fn field_elements(numbers: &[u64]) -> Vec<Fp> {
    numbers.iter().map(|&n| Fp::from_u64(n)).collect()
}

fn circuit(leaf: u64, elements: &[u64], indices: &[u64]) -> MerkleTreeCircuit {
    MerkleTreeCircuit {
        leaf: Fp::from_u64(leaf),
        elements: field_elements(elements),
        indices: field_elements(indices),
    }
}

/// The element of the curve library with the same value.
fn outside(x: &Fp) -> pasta_curves::Fp {
    let mut repr = x.value().fixed_be_bytes();
    repr.reverse();
    pasta_curves::Fp::from_repr(repr).unwrap()
}

/// The Poseidon hash of the hash library.
fn outside_hash(left: pasta_curves::Fp, right: pasta_curves::Fp) -> pasta_curves::Fp {
    halo2_poseidon::Hash::<
        _,
        halo2_poseidon::P128Pow5T3,
        halo2_poseidon::ConstantLength<2>,
        3,
        2,
    >::init()
    .hash([left, right])
}

#[test]
fn test_correct_merkle_proof() {
    let leaf = 0u64;
    let indices = [0u64, 0u64, 1u64, 1u64];
    let elements = [3u64, 4u64, 5u64, 6u64];
    let root = merkle_tree_commit_fp(&leaf, &elements, &indices);
    let circuit = circuit(leaf, &elements, &indices);
    assert!(circuit.is_satisfied(&[Fp::from_u64(leaf), root]));
}

#[test]
fn test_correct_merkle_proof_part2() {
    let mut rng = rand::rng();
    let leaf = rng.next_u64();
    let indices = [
        rng.random_range(0..2),
        rng.random_range(0..2),
        rng.random_range(0..2),
        rng.random_range(0..2),
        rng.random_range(0..2),
    ];
    let elements = [
        rng.next_u64(),
        rng.next_u64(),
        rng.next_u64(),
        rng.next_u64(),
        rng.next_u64(),
    ];
    let root = merkle_tree_commit_fp(&leaf, &elements, &indices);
    let circuit = circuit(leaf, &elements, &indices);
    assert!(circuit.is_satisfied(&[Fp::from_u64(leaf), root]));
}

#[test]
fn test_wrong_merkle_proof() {
    let leaf = 0u64;
    let indices = [0u64, 0u64, 1u64, 1u64];
    let elements = [3u64, 4u64, 5u64, 6u64];
    let root = Fp::from_u64(0);
    let circuit = circuit(leaf, &elements, &indices);
    assert!(!circuit.is_satisfied(&[Fp::from_u64(leaf), root]));
}

#[test]
fn test_wrong_merkle_part2() {
    let leaf = 0u64;
    let indices = [0u64, 0u64, 1u64, 1u64];
    let elements = [3u64, 4u64, 5u64, 6u64];
    let root = merkle_tree_commit_fp(&leaf, &elements, &indices);
    let false_indices = [1u64, 0u64, 1u64, 1u64];
    let circuit = circuit(leaf, &elements, &false_indices);
    assert!(!circuit.is_satisfied(&[Fp::from_u64(leaf), root]));
}

#[test]
fn test_invalid_indices() {
    let leaf = 0u64;
    let indices = [0u64, 0u64, 2u64, 1u64];
    let elements = [3u64, 4u64, 5u64, 6u64];
    let root = Fp::from_u64(0);
    let circuit = circuit(leaf, &elements, &indices);
    assert!(!circuit.is_satisfied(&[Fp::from_u64(leaf), root]));
}

#[test]
fn test_invalid_indices_part2() {
    let leaf = 0u64;
    let indices = [2u64, 1u64, 3u64, 4u64];
    let elements = [3u64, 4u64, 5u64, 6u64];
    let root = Fp::from_u64(0);
    let circuit = circuit(leaf, &elements, &indices);
    assert!(!circuit.is_satisfied(&[Fp::from_u64(leaf), root]));
}

#[test]
fn test_correct_merkle_proof_commitment_scheme_trait() {
    let leaf = 0u64;
    let indices = [0u64, 0u64, 1u64, 1u64];
    let elements = [3u64, 4u64, 5u64, 6u64];
    let witness = MerkleWitness::new(leaf, &elements, &indices);

    let circuit = MerkleTreeCircuit::setup(None);
    let commitment = circuit.commit(witness.clone());
    let opening = circuit.open(witness.clone());
    let is_valid = circuit.verify(commitment, opening, witness);

    assert!(is_valid, "Verification should succeed for valid opening");
}

#[test]
fn positions_that_are_no_bits_are_refused_with_their_own_root() {
    let elements = [3u64, 4u64, 5u64, 6u64];
    let indices = [0u64, 0u64, 2u64, 1u64];
    // A position other than zero swaps like a one, yet is no bit.
    let root = merkle_tree_commit_fp(&9, &elements, &indices);
    assert_eq!(root, merkle_tree_commit_fp(&9, &elements, &[0, 0, 1, 1]));
    assert!(!circuit(9, &elements, &indices).is_satisfied(&[Fp::from_u64(9), root]));
    assert!(circuit(9, &elements, &[0, 0, 1, 1]).is_satisfied(&[Fp::from_u64(9), root]));
}

#[test]
fn public_inputs_that_are_not_given_are_zero() {
    let circuit = circuit(0, &[], &[]);
    assert!(circuit.is_satisfied(&[]));
    assert!(circuit.is_satisfied(&[Fp::zero()]));
    assert!(!circuit.is_satisfied(&[Fp::one()]));
}

#[test]
fn another_leaf_is_refused() {
    let elements = [3u64, 4u64];
    let indices = [1u64, 0u64];
    let root = merkle_tree_commit_fp(&1, &elements, &indices);
    assert!(!circuit(1, &elements, &indices).is_satisfied(&[Fp::from_u64(2), root]));
}

#[test]
fn openings_are_verified_against_path_and_root() {
    let scheme = MerkleTreeCircuit::setup(Some(10));
    let witness = MerkleWitness::new(7, &[1, 2, 3], &[0, 1, 1]);
    let commitment = scheme.commit(witness.clone());
    assert!(scheme.verify(commitment, vec![1, 2, 3], witness.clone()));
    assert!(!scheme.verify(commitment, vec![1, 2, 4], witness.clone()));
    assert!(!scheme.verify(commitment, vec![1, 2], witness.clone()));
    assert!(!scheme.verify(Fp::zero(), vec![1, 2, 3], witness.clone()));
    assert_eq!(scheme.open(witness), [1, 2, 3]);
}

#[test]
fn the_root_of_an_empty_path_is_the_leaf() {
    assert_eq!(merkle_tree_commit_fp(&42, &[], &[1]), Fp::from_u64(42));
}

#[test]
fn a_root_is_the_chain_of_hashes() {
    let root = merkle_tree_commit_fp(&3, &[4, 5], &[0, 1]);
    let level = outside_hash(3u64.into(), 4u64.into());
    assert_eq!(outside(&root), outside_hash(5u64.into(), level));
    assert_ne!(root, Fp::from_u64(3));
    // Left and right are told apart.
    assert_ne!(root, merkle_tree_commit_fp(&3, &[4, 5], &[0, 0]));
}

#[test]
fn hashes_are_those_of_the_hash_library() {
    let (x, y) = (Fp::from_u64(11), Fp::from_u64(12));
    let digest = Fp::hash(&x, &y);
    assert_eq!(outside(&digest), outside_hash(11u64.into(), 12u64.into()));
    assert_ne!(digest, x);
    assert_ne!(digest, y);
}

#[test]
fn field_operations_reduce_modulo_the_modulus() {
    let modulus_less_one = "40000000000000000000000000000000224698fc094cf91b992d30ed00000000";
    let mut bytes = [0u8; 32];
    for (i, byte) in bytes.iter_mut().enumerate() {
        *byte = u8::from_str_radix(&modulus_less_one[2 * i..2 * i + 2], 16).unwrap();
    }
    let minus_one = Fp::zero().minus(&Fp::one());
    assert_eq!(minus_one.value(), B256::from(bytes));
    assert!(minus_one.plus(&Fp::one()).is_zero());
    assert_eq!(minus_one.times(&minus_one), Fp::one());
    assert_eq!(Fp::from_u64(6).times(&Fp::from_u64(7)), Fp::from_u64(42));
    assert_eq!(Fp::from_u64(6).plus(&Fp::from_u64(7)), Fp::from_u64(13));
    assert_eq!(Fp::from_u64(7).minus(&Fp::from_u64(6)), Fp::one());
    assert!(Fp::from_u64(7).equals(&Fp::from_u64(7)));
    assert!(!Fp::from_u64(7).equals(&Fp::from_u64(8)));
}

#[test]
fn hash_inputs_are_swapped_unless_the_position_is_zero() {
    let (digest, element) = (Fp::from_u64(1), Fp::from_u64(2));
    assert_eq!(hash_inputs(&digest, &element, &Fp::zero()), (digest, element));
    assert_eq!(hash_inputs(&digest, &element, &Fp::one()), (element, digest));
    assert_eq!(hash_inputs(&digest, &element, &Fp::from_u64(9)), (element, digest));
}

#[test]
fn levels_are_checked_cell_by_cell() {
    let config = MerkleTreeConfig::configure();
    let [d, e, l, r] = [Fp::from_u64(5), Fp::from_u64(6), Fp::from_u64(5), Fp::from_u64(6)];
    let level = MerkleLevel { digest: d, element: e, index: Fp::zero(), left: l, right: r };
    assert!(config.holds_on(&level));
    assert!(!config.holds_on(&MerkleLevel { left: Fp::one(), ..level }));
    assert!(!config.holds_on(&MerkleLevel { right: Fp::one(), ..level }));
    assert!(!config.holds_on(&MerkleLevel { index: Fp::one(), ..level }));
    assert!(config.holds_on(&MerkleLevel { index: Fp::one(), left: e, right: d, ..level }));
}

#[test]
fn a_forged_root_is_refused() {
    let witness = MerkleWitness::new(0, &[3, 4, 5, 6], &[0, 0, 1, 1]);
    let circuit = MerkleTreeCircuit::from_witness(&witness);
    let (levels, root) = circuit.synthesize();
    assert_eq!(levels.len(), 4);
    assert_eq!(witness.public_inputs(), [Fp::zero(), root]);
    assert!(assignment_holds(&circuit.leaf, &levels, &root, &witness.public_inputs()));
    let forged = [Fp::zero(), Fp::from_u64(42)];
    assert!(!assignment_holds(&circuit.leaf, &levels, &root, &forged));
    assert!(!circuit.is_satisfied(&forged));
}

#[test]
fn a_circuit_without_witnesses_has_one_level_of_zeros() {
    let blank = circuit(5, &[1, 2], &[0, 1]).without_witnesses();
    assert!(blank.leaf.is_zero());
    assert_eq!(blank.elements, [Fp::zero()]);
    assert_eq!(blank.indices, [Fp::zero()]);
}

#[test]
fn an_assignment_without_levels_has_its_leaf_as_root() {
    let (leaf, root) = (Fp::zero(), Fp::from_u64(42));
    assert!(!assignment_holds(&leaf, &vec![], &root, &[leaf, root]));
    assert!(assignment_holds(&root, &vec![], &root, &[root, root]));
}

#[test]
fn a_level_takes_its_digest_from_the_leaf() {
    let leaf = Fp::zero();
    let (digest, element) = (Fp::from_u64(7), Fp::from_u64(3));
    let level =
        MerkleLevel { digest, element, index: Fp::zero(), left: digest, right: element };
    let root = Fp::hash(&digest, &element);
    assert!(MerkleTreeConfig::configure().holds_on(&level));
    assert!(!assignment_holds(&leaf, &vec![level], &root, &[leaf, root]));
    assert!(assignment_holds(&digest, &vec![level], &root, &[digest, root]));
}

#[test]
fn a_root_is_the_hash_of_the_last_level() {
    let witness = MerkleWitness::new(0, &[3, 4, 5, 6], &[0, 0, 1, 1]);
    let circuit = MerkleTreeCircuit::from_witness(&witness);
    let (levels, root) = circuit.synthesize();
    let leaf = circuit.leaf;
    let forged = Fp::from_u64(42);
    assert!(!assignment_holds(&leaf, &levels, &forged, &[leaf, forged]));
    assert!(!assignment_holds(&leaf, &levels[..3].to_vec(), &root, &[leaf, root]));
    let mut unlinked = levels.clone();
    unlinked[2] = levels[1];
    assert!(!assignment_holds(&leaf, &unlinked, &root, &[leaf, root]));
    assert!(assignment_holds(&leaf, &levels, &root, &[leaf, root]));
}

#[test]
fn positions_beyond_64_bits_that_are_no_bits_are_refused() {
    let minus_one = Fp::zero().minus(&Fp::one());
    let circuit = MerkleTreeCircuit {
        leaf: Fp::from_u64(5),
        elements: vec![Fp::from_u64(6)],
        indices: vec![minus_one],
    };
    let root = Fp::hash(&Fp::from_u64(6), &Fp::from_u64(5));
    assert!(!circuit.is_satisfied(&[Fp::from_u64(5), root]));
    let swapped = MerkleTreeCircuit { indices: vec![Fp::one()], ..circuit };
    assert!(swapped.is_satisfied(&[Fp::from_u64(5), root]));
}
