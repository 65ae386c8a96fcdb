//! The library's description of the circuit for a path, laid out for Halo2.

use ff::PrimeField;
use halo2_gadgets::poseidon::{
    primitives::{ConstantLength, P128Pow5T3},
    Pow5Chip, Pow5Config,
};
use halo2_proofs::{
    circuit::{Layouter, SimpleFloorPlanner, Value},
    dev::MockProver,
    pasta::{EqAffine, Fp},
    plonk::{
        create_proof, keygen_pk, keygen_vk, verify_proof, Advice, Circuit, Column,
        ConstraintSystem, Error, Expression, Instance, ProvingKey, Selector, SingleVerifier,
    },
    poly::{commitment::Params, Rotation},
    transcript::{Blake2bRead, Blake2bWrite, Challenge255},
};
use zkmemory::commitment::field;
use zkmemory::commitment::merkle_tree::{
    merkle_tree_commit_fp, LevelExpr, MerkleTreeCircuit, MerkleTreeConfig, MerkleWitness,
};

fn to_outside(x: &field::Fp) -> Fp {
    let mut repr = x.value().fixed_be_bytes();
    repr.reverse();
    Fp::from_repr(repr).unwrap()
}

/// The columns of the circuit. The Poseidon chip makes sure that the running
/// digest of a level is the hash of the level before.
#[derive(Clone, Debug)]
struct PathConfig {
    digest: Column<Advice>,
    element: Column<Advice>,
    left: Column<Advice>,
    right: Column<Advice>,
    index: Column<Advice>,
    instance: Column<Instance>,
    selector: Selector,
    poseidon: Pow5Config<Fp, 3, 2>,
}

/// The circuit for a path.
#[derive(Clone, Debug)]
struct PathCircuit(MerkleTreeCircuit);

/// A polynomial of the library over the cells of a level.
fn expression(
    e: &LevelExpr,
    cell: &impl Fn(&LevelExpr) -> Expression<Fp>,
) -> Expression<Fp> {
    match e {
        LevelExpr::Add(a, b) => expression(a, cell) + expression(b, cell),
        LevelExpr::Sub(a, b) => expression(a, cell) - expression(b, cell),
        LevelExpr::Mul(a, b) => expression(a, cell) * expression(b, cell),
        leaf => cell(leaf),
    }
}

impl Circuit<Fp> for PathCircuit {
    type Config = PathConfig;
    type FloorPlanner = SimpleFloorPlanner;

    fn without_witnesses(&self) -> Self {
        PathCircuit(self.0.without_witnesses())
    }

    fn configure(meta: &mut ConstraintSystem<Fp>) -> PathConfig {
        let instance = meta.instance_column();
        meta.enable_equality(instance);
        let [digest, element, left, right] = [0; 4].map(|_| meta.advice_column());
        for column in [digest, element, left, right] {
            meta.enable_equality(column);
        }
        let index = meta.advice_column();
        let selector = meta.selector();
        meta.create_gate("boolean index bit and conditional swap", |meta| {
            let selector = meta.query_selector(selector);
            let digest = meta.query_advice(digest, Rotation::cur());
            let element = meta.query_advice(element, Rotation::cur());
            let left = meta.query_advice(left, Rotation::cur());
            let right = meta.query_advice(right, Rotation::cur());
            let index = meta.query_advice(index, Rotation::cur());
            let cell = |leaf: &LevelExpr| match leaf {
                LevelExpr::Digest => digest.clone(),
                LevelExpr::Element => element.clone(),
                LevelExpr::Left => left.clone(),
                LevelExpr::Right => right.clone(),
                LevelExpr::Index => index.clone(),
                _ => Expression::Constant(Fp::from(1)),
            };
            MerkleTreeConfig::configure()
                .polynomials
                .iter()
                .map(|e| selector.clone() * expression(e, &cell))
                .collect::<Vec<_>>()
        });

        let state = [0; 3].map(|_| meta.advice_column());
        for column in state {
            meta.enable_equality(column);
        }
        let partial_sbox = meta.advice_column();
        let rc_a = [0; 3].map(|_| meta.fixed_column());
        let rc_b = [0; 3].map(|_| meta.fixed_column());
        meta.enable_constant(rc_b[0]);
        let poseidon = Pow5Chip::configure::<P128Pow5T3>(meta, state, partial_sbox, rc_a, rc_b);
        PathConfig { digest, element, left, right, index, instance, selector, poseidon }
    }

    fn synthesize(&self, config: PathConfig, mut layouter: impl Layouter<Fp>) -> Result<(), Error> {
        assert_eq!(self.0.indices.len(), self.0.elements.len());
        let (levels, _) = self.0.synthesize();
        let known = |x: &field::Fp| Value::known(to_outside(x));

        let mut digest = layouter.assign_region(
            || "load leaf",
            |mut region| region.assign_advice(|| "leaf", config.digest, 0, || known(&self.0.leaf)),
        )?;
        layouter.constrain_instance(digest.cell(), config.instance, 0)?;

        for (i, level) in levels.iter().enumerate() {
            let (left, right) = layouter.assign_region(
                || format!("merkle level {i}"),
                |mut region| {
                    config.selector.enable(&mut region, 0)?;
                    // The copy binds the level to the digest below it.
                    digest.copy_advice(|| "digest", &mut region, config.digest, 0)?;
                    let element = || known(&level.element);
                    region.assign_advice(|| "element", config.element, 0, element)?;
                    let index = || known(&level.index);
                    region.assign_advice(|| "index", config.index, 0, index)?;
                    let left = || known(&level.left);
                    let left = region.assign_advice(|| "left input", config.left, 0, left)?;
                    let right = || known(&level.right);
                    let right = region.assign_advice(|| "right input", config.right, 0, right)?;
                    Ok((left, right))
                },
            )?;
            let chip = Pow5Chip::construct(config.poseidon.clone());
            let hasher = halo2_gadgets::poseidon::Hash::<_, _, P128Pow5T3, ConstantLength<2>, 3, 2>::init(
                chip,
                layouter.namespace(|| format!("init poseidon {i}")),
            )?;
            digest = hasher.hash(
                layouter.namespace(|| format!("poseidon hash {i}")),
                [left, right],
            )?;
        }
        layouter.constrain_instance(digest.cell(), config.instance, 1)
    }
}

fn mock_accepts(circuit: &MerkleTreeCircuit, inputs: &[field::Fp]) -> bool {
    let instance = inputs.iter().map(to_outside).collect();
    let prover = MockProver::run(10, &PathCircuit(circuit.clone()), vec![instance])
        .expect("Cannot run the circuit");
    prover.verify() == Ok(())
}

#[test]
fn the_mock_prover_accepts_what_satisfies_the_circuit() {
    let elements = [3u64, 4, 5, 6];
    let leaf = field::Fp::from_u64(0);
    for indices in [[0u64, 0, 1, 1], [1, 0, 1, 1], [0, 0, 2, 1], [2, 1, 3, 4]] {
        let witness = MerkleWitness::new(0, &elements, &indices);
        let circuit = MerkleTreeCircuit::from_witness(&witness);
        for root in [
            field::Fp::zero(),
            merkle_tree_commit_fp(&0, &elements, &[0, 0, 1, 1]),
            merkle_tree_commit_fp(&0, &elements, &indices),
        ] {
            let inputs = [leaf, root];
            assert_eq!(mock_accepts(&circuit, &inputs), circuit.is_satisfied(&inputs));
        }
    }
    let witness = MerkleWitness::new(0, &elements, &[0, 0, 1, 1]);
    let circuit = MerkleTreeCircuit::from_witness(&witness);
    assert!(mock_accepts(&circuit, &witness.public_inputs()));
    assert!(!mock_accepts(&circuit, &witness.public_inputs()[..1]));
}

/// The keys of a circuit of `2^10` rows.
fn keys(circuit: &PathCircuit) -> (Params<EqAffine>, ProvingKey<EqAffine>) {
    let params = Params::<EqAffine>::new(10);
    let vk = keygen_vk(&params, circuit).expect("Cannot initialize verify key");
    let pk = keygen_pk(&params, vk, circuit).expect("Cannot initialize proving key");
    (params, pk)
}

fn prove(
    params: &Params<EqAffine>,
    pk: &ProvingKey<EqAffine>,
    circuit: impl Circuit<Fp>,
    inputs: &[Fp],
) -> Vec<u8> {
    let mut transcript = Blake2bWrite::<Vec<u8>, EqAffine, Challenge255<EqAffine>>::init(vec![]);
    create_proof(params, pk, &[circuit], &[&[inputs]], rand::rng(), &mut transcript)
        .expect("Failed to create proof");
    transcript.finalize()
}

fn verify(
    params: &Params<EqAffine>,
    pk: &ProvingKey<EqAffine>,
    proof: &[u8],
    inputs: &[Fp],
) -> bool {
    let strategy = SingleVerifier::new(params);
    let mut transcript = Blake2bRead::<&[u8], EqAffine, Challenge255<EqAffine>>::init(proof);
    verify_proof(params, pk.get_vk(), strategy, &[&[inputs]], &mut transcript).is_ok()
}

#[test]
fn test_merkle_proof_real_prover() {
    let leaf = 0u64;
    let indices = [0u64, 0u64, 1u64, 1u64];
    let elements = [3u64, 4u64, 5u64, 6u64];
    let witness = MerkleWitness::new(leaf, &elements, &indices);
    let circuit = PathCircuit(MerkleTreeCircuit::from_witness(&witness));
    let (params, pk) = keys(&circuit);
    let inputs: Vec<Fp> = witness.public_inputs().iter().map(to_outside).collect();
    let proof = prove(&params, &pk, circuit.clone(), &inputs);
    let root = to_outside(&circuit.0.commit(witness));
    let public_inputs = vec![Fp::from(leaf), root];
    assert!(verify(&params, &pk, &proof, &public_inputs), "Merkle proof verification failed");
}

/// A circuit with the same constraints that assigns a forged root without
/// hashing.
#[derive(Clone)]
struct FakeMerkleTreeCircuit {
    leaf: Fp,
    fake_root: Fp,
}

impl Circuit<Fp> for FakeMerkleTreeCircuit {
    type Config = PathConfig;
    type FloorPlanner = SimpleFloorPlanner;

    fn without_witnesses(&self) -> Self {
        self.clone()
    }

    fn configure(meta: &mut ConstraintSystem<Fp>) -> PathConfig {
        PathCircuit::configure(meta)
    }

    fn synthesize(&self, config: PathConfig, mut layouter: impl Layouter<Fp>) -> Result<(), Error> {
        for (row, value) in [self.leaf, self.fake_root].into_iter().enumerate() {
            let cell = layouter.assign_region(
                || "assigned",
                |mut region| {
                    region.assign_advice(|| "cell", config.digest, 0, || Value::known(value))
                },
            )?;
            layouter.constrain_instance(cell.cell(), config.instance, row)?;
        }
        Ok(())
    }
}

#[test]
fn test_fake_merkle_proof_is_rejected() {
    let leaf = 0u64;
    let indices = [0u64, 0u64, 1u64, 1u64];
    let elements = [3u64, 4u64, 5u64, 6u64];
    let fake_root = Fp::from(42u64);

    // Honest setup: the proving key comes from the real circuit.
    let witness = MerkleWitness::new(leaf, &elements, &indices);
    let (params, pk) = keys(&PathCircuit(MerkleTreeCircuit::from_witness(&witness)));

    let fake_circuit = FakeMerkleTreeCircuit { leaf: Fp::from(leaf), fake_root };
    let public_inputs = [Fp::from(leaf), fake_root];
    let fake_proof = prove(&params, &pk, fake_circuit, &public_inputs);
    assert!(
        !verify(&params, &pk, &fake_proof, &public_inputs),
        "Fake merkle proof must be rejected"
    );
}
