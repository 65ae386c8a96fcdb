//! Commitment to the leaf of a Merkle tree, and the circuit that shows that a
//! path leads from a leaf to a root.

use crate::commitment::field;
use crate::commitment::field::Fp;
use crate::commitment::modulus;
use crate::commitment::prime;
use vstd::prelude::*;

verus! {

/// A path from a leaf: the sibling nodes, from the bottom up, and at each level
/// zero where the running digest is the left child.
#[derive(Clone, Debug)]
pub struct MerkleWitness {
    /// The leaf.
    pub leaf: u64,
    /// The siblings on the path.
    pub elements: Vec<u64>,
    /// The positions on the path.
    pub indices: Vec<u64>,
}

/// The numbers of a sequence.
pub open spec fn numbers(s: Seq<u64>) -> Seq<nat> {
    Seq::new(s.len(), |i: int| s[i] as nat)
}

/// The values of a sequence of field elements.
pub open spec fn values(s: Seq<Fp>) -> Seq<nat> {
    Seq::new(s.len(), |i: int| s[i]@)
}

/// The parent of a running digest and its sibling.
pub open spec fn parent(digest: nat, element: nat, index: nat) -> nat {
    if index == 0 {
        field::poseidon_of(digest, element)
    } else {
        field::poseidon_of(element, digest)
    }
}

/// The running digest after `n` levels of a path.
pub open spec fn digest_after(leaf: nat, elements: Seq<nat>, indices: Seq<nat>, n: int) -> nat
    decreases n,
{
    if n <= 0 {
        leaf
    } else {
        parent(digest_after(leaf, elements, indices, n - 1), elements[n - 1], indices[n - 1])
    }
}

/// The root that a path leads to.
pub open spec fn root_of(leaf: u64, elements: Seq<u64>, indices: Seq<u64>) -> nat {
    digest_after(leaf as nat, numbers(elements), numbers(indices), elements.len() as int)
}

impl MerkleWitness {
    /// A path from `leaf`.
    pub fn new(leaf: u64, elements: &[u64], indices: &[u64]) -> (witness: MerkleWitness)
        ensures
            witness.leaf == leaf,
            witness.elements@ == elements@,
            witness.indices@ == indices@,
    {
        MerkleWitness { leaf, elements: copied(elements), indices: copied(indices) }
    }

    /// The path has a position for each sibling.
    pub open spec fn is_complete(&self) -> bool {
        self.indices@.len() >= self.elements@.len()
    }

    /// The leaf, the siblings and the positions as field elements.
    pub fn to_circuit_format(&self) -> (parts: (Fp, Vec<Fp>, Vec<Fp>))
        ensures
            parts.0@ == self.leaf,
            values(parts.1@) == numbers(self.elements@),
            values(parts.2@) == numbers(self.indices@),
    {
        (
            Fp::from_u64(self.leaf),
            field_elements(self.elements.as_slice()),
            field_elements(self.indices.as_slice()),
        )
    }

    /// The public inputs of a proof for the path: the leaf and the root.
    pub fn public_inputs(&self) -> (inputs: Vec<Fp>)
        requires
            self.is_complete(),
        ensures
            values(inputs@) == seq![
                self.leaf as nat,
                root_of(self.leaf, self.elements@, self.indices@),
            ],
    {
        let root = merkle_tree_commit_fp(
            &self.leaf,
            self.elements.as_slice(),
            self.indices.as_slice(),
        );
        let inputs: Vec<Fp> = vec![Fp::from_u64(self.leaf), root];
        assert(values(inputs@) =~= seq![
            self.leaf as nat,
            root_of(self.leaf, self.elements@, self.indices@),
        ]);
        inputs
    }
}

fn copied(s: &[u64]) -> (out: Vec<u64>)
    ensures
        out@ == s@,
{
    let mut out: Vec<u64> = Vec::new();
    let mut i: usize = 0;
    while i < s.len()
        invariant
            i <= s@.len(),
            out@ == s@.take(i as int),
        decreases s@.len() - i,
    {
        out.push(s[i]);
        assert(out@ =~= s@.take(i + 1));
        i = i + 1;
    }
    assert(out@ =~= s@);
    out
}

fn field_elements(s: &[u64]) -> (out: Vec<Fp>)
    ensures
        values(out@) == numbers(s@),
{
    let mut out: Vec<Fp> = Vec::new();
    let mut i: usize = 0;
    while i < s.len()
        invariant
            i <= s@.len(),
            out@.len() == i,
            forall|k: int| 0 <= k < i ==> (#[trigger] out@[k])@ == s@[k],
        decreases s@.len() - i,
    {
        out.push(Fp::from_u64(s[i]));
        i = i + 1;
    }
    assert(values(out@) =~= numbers(s@));
    out
}

/// The left and right input of the hash of a level: the running digest and its
/// sibling, swapped unless the position is zero.
pub fn hash_inputs(digest: &Fp, element: &Fp, index: &Fp) -> (inputs: (Fp, Fp))
    ensures
        inputs == if index@ == 0 {
            (*digest, *element)
        } else {
            (*element, *digest)
        },
{
    if index.is_zero() {
        (*digest, *element)
    } else {
        (*element, *digest)
    }
}

/// The root that a path leads to from a leaf.
pub fn merkle_tree_commit_fp(leaf: &u64, elements: &[u64], indices: &[u64]) -> (root: Fp)
    requires
        indices@.len() >= elements@.len(),
    ensures
        root@ == root_of(*leaf, elements@, indices@),
{
    let mut digest = Fp::from_u64(*leaf);
    let mut i: usize = 0;
    while i < elements.len()
        invariant
            i <= elements@.len() <= indices@.len(),
            digest@ == digest_after(
                *leaf as nat,
                numbers(elements@),
                numbers(indices@),
                i as int,
            ),
        decreases elements@.len() - i,
    {
        let (left, right) = hash_inputs(
            &digest,
            &Fp::from_u64(elements[i]),
            &Fp::from_u64(indices[i]),
        );
        digest = Fp::hash(&left, &right);
        i = i + 1;
    }
    digest
}

// ---------------------------------------------------------------------------
// The circuit.
// ---------------------------------------------------------------------------

/// The cells of one level of the circuit.
#[derive(Clone, Copy, Debug)]
pub struct MerkleLevel {
    /// The running digest.
    pub digest: Fp,
    /// The sibling.
    pub element: Fp,
    /// The position of the running digest.
    pub index: Fp,
    /// The left input of the hash.
    pub left: Fp,
    /// The right input of the hash.
    pub right: Fp,
}

/// The values of the cells of one level.
pub ghost struct LevelValues {
    pub digest: nat,
    pub element: nat,
    pub index: nat,
    pub left: nat,
    pub right: nat,
}

impl View for MerkleLevel {
    type V = LevelValues;

    open spec fn view(&self) -> LevelValues {
        LevelValues {
            digest: self.digest@,
            element: self.element@,
            index: self.index@,
            left: self.left@,
            right: self.right@,
        }
    }
}

/// A polynomial over the cells of a level.
#[derive(Debug)]
pub enum LevelExpr {
    /// The constant one.
    One,
    /// The running digest.
    Digest,
    /// The sibling.
    Element,
    /// The position of the running digest.
    Index,
    /// The left input of the hash.
    Left,
    /// The right input of the hash.
    Right,
    /// A sum.
    Add(Box<LevelExpr>, Box<LevelExpr>),
    /// A difference.
    Sub(Box<LevelExpr>, Box<LevelExpr>),
    /// A product.
    Mul(Box<LevelExpr>, Box<LevelExpr>),
}

/// The value of a polynomial on the cells of a level, before reduction.
pub open spec fn level_value(e: LevelExpr, level: LevelValues) -> int
    decreases e,
{
    match e {
        LevelExpr::One => 1,
        LevelExpr::Digest => level.digest as int,
        LevelExpr::Element => level.element as int,
        LevelExpr::Index => level.index as int,
        LevelExpr::Left => level.left as int,
        LevelExpr::Right => level.right as int,
        LevelExpr::Add(a, b) => level_value(*a, level) + level_value(*b, level),
        LevelExpr::Sub(a, b) => level_value(*a, level) - level_value(*b, level),
        LevelExpr::Mul(a, b) => level_value(*a, level) * level_value(*b, level),
    }
}

/// A number is zero in the field.
pub open spec fn vanishes(n: int) -> bool {
    n % (field::modulus() as int) == 0
}

/// The position is a bit: `index * (1 - index)`.
pub open spec fn bit_polynomial(level: LevelValues) -> int {
    level.index * (1 - level.index)
}

/// The left input: `left - (digest + index * (element - digest))`.
pub open spec fn left_polynomial(level: LevelValues) -> int {
    level.left - (level.digest + level.index * (level.element - level.digest))
}

/// The right input: `right - (element + index * (digest - element))`.
pub open spec fn right_polynomial(level: LevelValues) -> int {
    level.right - (level.element + level.index * (level.digest - level.element))
}

/// The three polynomials of a level vanish.
pub open spec fn level_ok(level: LevelValues) -> bool {
    &&& vanishes(bit_polynomial(level))
    &&& vanishes(left_polynomial(level))
    &&& vanishes(right_polynomial(level))
}

/// The configuration of the circuit: the polynomials that vanish on each level.
#[derive(Debug)]
pub struct MerkleTreeConfig {
    /// The polynomials.
    pub polynomials: Vec<LevelExpr>,
}

fn difference(a: LevelExpr, b: LevelExpr) -> (e: LevelExpr)
    ensures
        forall|level: LevelValues| #[trigger]
            level_value(e, level) == level_value(a, level) - level_value(b, level),
{
    LevelExpr::Sub(Box::new(a), Box::new(b))
}

fn sum(a: LevelExpr, b: LevelExpr) -> (e: LevelExpr)
    ensures
        forall|level: LevelValues| #[trigger]
            level_value(e, level) == level_value(a, level) + level_value(b, level),
{
    LevelExpr::Add(Box::new(a), Box::new(b))
}

fn product(a: LevelExpr, b: LevelExpr) -> (e: LevelExpr)
    ensures
        forall|level: LevelValues| #[trigger]
            level_value(e, level) == level_value(a, level) * level_value(b, level),
{
    LevelExpr::Mul(Box::new(a), Box::new(b))
}

impl MerkleTreeConfig {
    /// The three polynomials of a level are configured.
    pub open spec fn is_configured(&self) -> bool {
        &&& self.polynomials@.len() == 3
        &&& forall|level: LevelValues| #[trigger]
            level_value(self.polynomials@[0], level) == bit_polynomial(level)
        &&& forall|level: LevelValues| #[trigger]
            level_value(self.polynomials@[1], level) == left_polynomial(level)
        &&& forall|level: LevelValues| #[trigger]
            level_value(self.polynomials@[2], level) == right_polynomial(level)
    }

    /// Configure the circuit: the position is a bit, and the hash inputs are
    /// the running digest and the sibling, swapped where the bit is one.
    pub fn configure() -> (config: MerkleTreeConfig)
        ensures
            config.is_configured(),
    {
        let mut polynomials: Vec<LevelExpr> = Vec::new();
        polynomials.push(product(LevelExpr::Index, difference(LevelExpr::One, LevelExpr::Index)));
        let up = product(LevelExpr::Index, difference(LevelExpr::Element, LevelExpr::Digest));
        polynomials.push(difference(LevelExpr::Left, sum(LevelExpr::Digest, up)));
        let down = product(LevelExpr::Index, difference(LevelExpr::Digest, LevelExpr::Element));
        polynomials.push(difference(LevelExpr::Right, sum(LevelExpr::Element, down)));
        MerkleTreeConfig { polynomials }
    }

    /// Whether the polynomials vanish on the cells of a level.
    pub fn holds_on(&self, level: &MerkleLevel) -> (ok: bool)
        requires
            self.is_configured(),
        ensures
            ok == level_ok(level@),
    {
        let mut i: usize = 0;
        while i < self.polynomials.len()
            invariant
                i <= self.polynomials@.len(),
                self.is_configured(),
                forall|k: int|
                    0 <= k < i ==> vanishes(level_value(#[trigger] self.polynomials@[k], level@)),
            decreases self.polynomials@.len() - i,
        {
            if !evaluate(&self.polynomials[i], level).is_zero() {
                proof {
                    assert(!vanishes(level_value(self.polynomials@[i as int], level@)));
                    assert(i == 0 || i == 1 || i == 2);
                }
                return false;
            }
            i = i + 1;
        }
        assert(vanishes(level_value(self.polynomials@[0], level@)));
        assert(vanishes(level_value(self.polynomials@[1], level@)));
        assert(vanishes(level_value(self.polynomials@[2], level@)));
        true
    }
}

/// The value of a polynomial on the cells of a level.
fn evaluate(e: &LevelExpr, level: &MerkleLevel) -> (x: Fp)
    ensures
        x@ == level_value(*e, level@) % (field::modulus() as int),
    decreases e,
{
    let x = match e {
        LevelExpr::One => Fp::one(),
        LevelExpr::Digest => level.digest,
        LevelExpr::Element => level.element,
        LevelExpr::Index => level.index,
        LevelExpr::Left => level.left,
        LevelExpr::Right => level.right,
        LevelExpr::Add(a, b) => {
            let s = evaluate(a, level);
            let t = evaluate(b, level);
            proof {
                vstd::arithmetic::div_mod::lemma_add_mod_noop(
                    level_value(**a, level@),
                    level_value(**b, level@),
                    field::modulus() as int,
                );
            }
            return s.plus(&t);
        },
        LevelExpr::Sub(a, b) => {
            let s = evaluate(a, level);
            let t = evaluate(b, level);
            proof {
                vstd::arithmetic::div_mod::lemma_sub_mod_noop(
                    level_value(**a, level@),
                    level_value(**b, level@),
                    field::modulus() as int,
                );
            }
            return s.minus(&t);
        },
        LevelExpr::Mul(a, b) => {
            let s = evaluate(a, level);
            let t = evaluate(b, level);
            proof {
                vstd::arithmetic::div_mod::lemma_mul_mod_noop(
                    level_value(**a, level@),
                    level_value(**b, level@),
                    field::modulus() as int,
                );
            }
            return s.times(&t);
        },
    };
    let word = x.value();
    proof {
        vstd::arithmetic::div_mod::lemma_small_mod(word@, field::modulus());
    }
    x
}

/// The circuit for a path: a leaf, the siblings and the positions.
#[derive(Clone, Debug)]
pub struct MerkleTreeCircuit {
    /// The leaf.
    pub leaf: Fp,
    /// The siblings on the path.
    pub elements: Vec<Fp>,
    /// The positions on the path.
    pub indices: Vec<Fp>,
}

/// The value of public input `i`; inputs that are not given are zero.
pub open spec fn input_at(inputs: Seq<Fp>, i: int) -> nat {
    if i < inputs.len() {
        inputs[i]@
    } else {
        0
    }
}

/// The values of the cells of all levels.
pub open spec fn level_values(levels: Seq<MerkleLevel>) -> Seq<LevelValues> {
    Seq::new(levels.len(), |i: int| levels[i]@)
}

/// The cells of a level are field elements.
pub open spec fn is_reduced(level: LevelValues) -> bool {
    &&& level.digest < field::modulus()
    &&& level.element < field::modulus()
    &&& level.index < field::modulus()
    &&& level.left < field::modulus()
    &&& level.right < field::modulus()
}

/// The siblings of the levels.
pub open spec fn elements_of(levels: Seq<LevelValues>) -> Seq<nat> {
    Seq::new(levels.len(), |i: int| levels[i].element)
}

/// The positions of the levels.
pub open spec fn indices_of(levels: Seq<LevelValues>) -> Seq<nat> {
    Seq::new(levels.len(), |i: int| levels[i].index)
}

/// What the first `n` levels hash to: the leaf, where there are none, else the
/// hash of the inputs of the last of them.
pub open spec fn hashed(leaf: nat, levels: Seq<LevelValues>, n: int) -> nat {
    if n <= 0 {
        leaf
    } else {
        field::poseidon_of(levels[n - 1].left, levels[n - 1].right)
    }
}

/// The levels are linked: the running digest of each level is what the levels
/// below it hash to, and the root is what all of them hash to.
pub open spec fn linked(leaf: nat, levels: Seq<LevelValues>, root: nat) -> bool {
    &&& root == hashed(leaf, levels, levels.len() as int)
    &&& forall|i: int|
        0 <= i < levels.len() ==> (#[trigger] levels[i]).digest == hashed(leaf, levels, i)
}

impl MerkleTreeCircuit {
    /// The circuit has a position for each sibling and no more.
    pub open spec fn is_balanced(&self) -> bool {
        self.indices@.len() == self.elements@.len()
    }

    /// The running digest after `n` levels.
    pub open spec fn digest(&self, n: int) -> nat {
        digest_after(self.leaf@, values(self.elements@), values(self.indices@), n)
    }

    /// The values of the cells of level `i`: the hash inputs are the running
    /// digest and the sibling, swapped unless the position is zero.
    pub open spec fn level(&self, i: int) -> LevelValues {
        let digest = self.digest(i);
        let element = self.elements@[i]@;
        let index = self.indices@[i]@;
        if index == 0 {
            LevelValues { digest, element, index, left: digest, right: element }
        } else {
            LevelValues { digest, element, index, left: element, right: digest }
        }
    }

    /// The circuit is satisfied: the leaf is the first public input, every
    /// level's polynomials vanish, and the last digest is the second public input.
    pub open spec fn satisfied_by(&self, inputs: Seq<Fp>) -> bool {
        &&& self.leaf@ == input_at(inputs, 0)
        &&& self.digest(self.elements@.len() as int) == input_at(inputs, 1)
        &&& forall|i: int| 0 <= i < self.elements@.len() ==> level_ok(#[trigger] self.level(i))
    }

    /// The circuit for a path.
    pub fn from_witness(witness: &MerkleWitness) -> (circuit: MerkleTreeCircuit)
        ensures
            circuit.leaf@ == witness.leaf,
            values(circuit.elements@) == numbers(witness.elements@),
            values(circuit.indices@) == numbers(witness.indices@),
    {
        let (leaf, elements, indices) = witness.to_circuit_format();
        MerkleTreeCircuit { leaf, elements, indices }
    }

    /// A circuit that knows no path: one level of zeros.
    pub fn without_witnesses(&self) -> (circuit: MerkleTreeCircuit)
        ensures
            circuit.leaf@ == 0,
            values(circuit.elements@) == seq![0nat],
            values(circuit.indices@) == seq![0nat],
    {
        MerkleTreeCircuit::setup(None)
    }

    /// The cells of all levels, from the bottom up, and the last digest.
    pub fn synthesize(&self) -> (out: (Vec<MerkleLevel>, Fp))
        requires
            self.is_balanced(),
        ensures
            out.0@.len() == self.elements@.len(),
            forall|i: int| 0 <= i < out.0@.len() ==> (#[trigger] out.0@[i])@ == self.level(i),
            out.1@ == self.digest(self.elements@.len() as int),
    {
        let mut levels: Vec<MerkleLevel> = Vec::new();
        let mut digest = self.leaf;
        let mut i: usize = 0;
        while i < self.indices.len()
            invariant
                self.is_balanced(),
                i <= self.elements@.len(),
                levels@.len() == i,
                digest@ == self.digest(i as int),
                forall|k: int| 0 <= k < i ==> (#[trigger] levels@[k])@ == self.level(k),
            decreases self.elements@.len() - i,
        {
            let index = self.indices[i];
            let element = self.elements[i];
            let (left, right) = hash_inputs(&digest, &element, &index);
            levels.push(MerkleLevel { digest, element, index, left, right });
            digest = Fp::hash(&left, &right);
            i = i + 1;
        }
        (levels, digest)
    }

    /// Whether the circuit is satisfied by public inputs.
    pub fn is_satisfied(&self, inputs: &[Fp]) -> (ok: bool)
        requires
            self.is_balanced(),
        ensures
            ok == self.satisfied_by(inputs@),
    {
        let (levels, root) = self.synthesize();
        proof {
            assert forall|i: int| 0 <= i < self.elements@.len() implies level_ok(
                #[trigger] self.level(i),
            ) == level_ok(levels@[i]@) by {}
            assert forall|i: int| 0 <= i < self.elements@.len() implies level_ok(
                (#[trigger] levels@[i])@,
            ) == level_ok(self.level(i)) by {}
            let cells = level_values(levels@);
            assert forall|i: int| 0 <= i <= cells.len() implies #[trigger] hashed(
                self.leaf@,
                cells,
                i,
            ) == self.digest(i) by {
                if i > 0 {
                    assert(levels@[i - 1]@ == self.level(i - 1));
                    assert(values(self.elements@)[i - 1] == self.elements@[i - 1]@);
                    assert(values(self.indices@)[i - 1] == self.indices@[i - 1]@);
                }
            }
            assert forall|i: int| 0 <= i < cells.len() implies (#[trigger] cells[i]).digest
                == hashed(self.leaf@, cells, i) by {
                assert(levels@[i]@ == self.level(i));
            }
            assert(linked(self.leaf@, cells, root@));
        }
        assignment_holds(&self.leaf, &levels, &root, inputs)
    }

    /// The commitment scheme's starting circuit, whatever its size: one level
    /// of zeros.
    pub fn setup(_k: Option<u32>) -> (circuit: MerkleTreeCircuit)
        ensures
            circuit.leaf@ == 0,
            values(circuit.elements@) == seq![0nat],
            values(circuit.indices@) == seq![0nat],
    {
        let elements: Vec<Fp> = vec![Fp::zero()];
        let indices: Vec<Fp> = vec![Fp::zero()];
        assert(values(elements@) =~= seq![0nat]);
        assert(values(indices@) =~= seq![0nat]);
        MerkleTreeCircuit { leaf: Fp::zero(), elements, indices }
    }

    /// Commit to a path: its root.
    pub fn commit(&self, witness: MerkleWitness) -> (commitment: Fp)
        requires
            witness.is_complete(),
        ensures
            commitment@ == root_of(witness.leaf, witness.elements@, witness.indices@),
    {
        merkle_tree_commit_fp(
            &witness.leaf,
            witness.elements.as_slice(),
            witness.indices.as_slice(),
        )
    }

    /// Open the commitment to a path: its siblings.
    pub fn open(&self, witness: MerkleWitness) -> (opening: Vec<u64>)
        ensures
            opening@ == witness.elements@,
    {
        witness.elements
    }

    /// Verify an opening of the commitment to a path: it lists the siblings of
    /// the path, and the path leads to the committed root.
    pub fn verify(&self, commitment: Fp, opening: Vec<u64>, witness: MerkleWitness) -> (ok: bool)
        requires
            opening@ == witness.elements@ ==> witness.is_complete(),
        ensures
            ok == (opening@ == witness.elements@ && commitment@ == root_of(
                witness.leaf,
                opening@,
                witness.indices@,
            )),
    {
        if opening.len() != witness.elements.len() {
            return false;
        }
        let mut i: usize = 0;
        while i < opening.len()
            invariant
                i <= opening@.len(),
                opening@.len() == witness.elements@.len(),
                forall|k: int| 0 <= k < i ==> opening@[k] == witness.elements@[k],
            decreases opening@.len() - i,
        {
            if opening[i] != witness.elements[i] {
                return false;
            }
            i = i + 1;
        }
        assert(opening@ =~= witness.elements@);
        let root = merkle_tree_commit_fp(
            &witness.leaf,
            opening.as_slice(),
            witness.indices.as_slice(),
        );
        commitment.equals(&root)
    }
}

/// Whether an assignment of the circuit's cells satisfies it: the leaf is the
/// first public input, every level takes its digest from the hash of the level
/// below and meets its polynomials, and the root is the last hash and the
/// second public input. The root is then the one that the path of the levels'
/// siblings and positions leads to from the leaf.
pub fn assignment_holds(leaf: &Fp, levels: &Vec<MerkleLevel>, root: &Fp, inputs: &[Fp]) -> (ok:
    bool)
    ensures
        ok == {
            &&& leaf@ == input_at(inputs@, 0)
            &&& root@ == input_at(inputs@, 1)
            &&& linked(leaf@, level_values(levels@), root@)
            &&& forall|i: int| 0 <= i < levels@.len() ==> level_ok((#[trigger] levels@[i])@)
        },
        ok ==> root@ == digest_after(
            leaf@,
            elements_of(level_values(levels@)),
            indices_of(level_values(levels@)),
            levels@.len() as int,
        ),
{
    let config = MerkleTreeConfig::configure();
    let ghost cells = level_values(levels@);
    let mut digest = *leaf;
    let mut i: usize = 0;
    while i < levels.len()
        invariant
            config.is_configured(),
            i <= levels@.len(),
            cells == level_values(levels@),
            digest@ == hashed(leaf@, cells, i as int),
            forall|k: int|
                0 <= k < i ==> (#[trigger] cells[k]).digest == hashed(leaf@, cells, k),
            forall|k: int| 0 <= k < i ==> level_ok((#[trigger] levels@[k])@),
            forall|k: int| 0 <= k < i ==> is_reduced((#[trigger] levels@[k])@),
        decreases levels@.len() - i,
    {
        if !config.holds_on(&levels[i]) {
            assert(!level_ok(levels@[i as int]@));
            return false;
        }
        if !levels[i].digest.equals(&digest) {
            assert(cells[i as int].digest != hashed(leaf@, cells, i as int));
            return false;
        }
        let level = levels[i];
        proof {
            use_type_invariant(&level.digest);
            use_type_invariant(&level.element);
            use_type_invariant(&level.index);
            use_type_invariant(&level.left);
            use_type_invariant(&level.right);
        }
        digest = Fp::hash(&level.left, &level.right);
        i = i + 1;
    }
    proof {
        if digest@ == root@ {
            assert forall|k: int| 0 <= k < cells.len() implies level_ok(#[trigger] cells[k]) by {
                assert(level_ok(levels@[k]@));
            }
            assert forall|k: int| 0 <= k < cells.len() implies is_reduced(#[trigger] cells[k]) by {
                assert(is_reduced(levels@[k]@));
            }
            satisfying_assignments_lead_to_the_root(leaf@, cells, root@);
        }
    }
    digest.equals(root) && public_input(inputs, 0).equals(leaf) && public_input(
        inputs,
        1,
    ).equals(root)
}

/// Public input `i`; one that is not given is zero.
fn public_input(inputs: &[Fp], i: usize) -> (x: Fp)
    ensures
        x@ == input_at(inputs@, i as int),
{
    if i < inputs.len() {
        inputs[i]
    } else {
        Fp::zero()
    }
}

// ---------------------------------------------------------------------------
// Laws.
// ---------------------------------------------------------------------------

/// The opening of a commitment to a path verifies.
pub proof fn openings_verify(
    circuit: MerkleTreeCircuit,
    witness: MerkleWitness,
    commitment: Fp,
    opening: Vec<u64>,
    verdict: bool,
)
    requires
        witness.is_complete(),
        call_ensures(MerkleTreeCircuit::commit, (&circuit, witness), commitment),
        call_ensures(MerkleTreeCircuit::open, (&circuit, witness), opening),
        call_ensures(MerkleTreeCircuit::verify, (&circuit, commitment, opening, witness), verdict),
    ensures
        verdict,
{
}

/// The polynomial of a position vanishes on no field element but zero and one.
pub proof fn positions_are_bits(index: nat)
    requires
        index < field::modulus(),
    ensures
        vanishes(index * (1 - index)) <==> index == 0 || index == 1,
{
    let p = field::modulus() as int;
    let n = index as int;
    if vanishes(n * (1 - n)) && n > 1 {
        modulus::modulus_is_prime();
        prime::lemma_prime_divides_a_factor(p, n, 1 - n);
        vstd::arithmetic::div_mod::lemma_small_mod(index, field::modulus());
        vstd::arithmetic::div_mod::lemma_fundamental_div_mod_converse(1 - n, p, -1, p + 1 - n);
    }
    if n == 0 || n == 1 {
        assert(n * (1 - n) == 0) by (nonlinear_arith)
            requires
                n == 0 || n == 1,
        ;
    }
}

/// Numbers below the modulus whose difference vanishes are equal.
pub proof fn lemma_equal(a: nat, b: nat)
    requires
        a < field::modulus(),
        b < field::modulus(),
        vanishes(a - b),
    ensures
        a == b,
{
    let p = field::modulus() as int;
    if a > b {
        vstd::arithmetic::div_mod::lemma_small_mod((a - b) as nat, field::modulus());
    } else if a < b {
        vstd::arithmetic::div_mod::lemma_fundamental_div_mod_converse(a - b, p, -1, p + a - b);
    }
}

/// On a position that is a bit the polynomials of the hash inputs are the
/// differences to the running digest and the sibling, swapped on one.
pub proof fn lemma_inputs_of_bit(level: LevelValues)
    requires
        level.index == 0 || level.index == 1,
    ensures
        level.index == 0 ==> left_polynomial(level) == level.left - level.digest
            && right_polynomial(level) == level.right - level.element,
        level.index == 1 ==> left_polynomial(level) == level.left - level.element
            && right_polynomial(level) == level.right - level.digest,
{
    let d = level.digest as int;
    let e = level.element as int;
    let b = level.index as int;
    assert(b * (e - d) == if b == 0 {
        0
    } else {
        e - d
    }) by (nonlinear_arith)
        requires
            b == 0 || b == 1,
    ;
    assert(b * (d - e) == if b == 0 {
        0
    } else {
        d - e
    }) by (nonlinear_arith)
        requires
            b == 0 || b == 1,
    ;
}

proof fn lemma_honest_level(circuit: MerkleTreeCircuit, i: int)
    requires
        circuit.indices@[i]@ < field::modulus(),
    ensures
        level_ok(circuit.level(i)) <==> circuit.indices@[i]@ == 0 || circuit.indices@[i]@ == 1,
{
    let level = circuit.level(i);
    positions_are_bits(level.index);
    if level.index == 0 || level.index == 1 {
        lemma_inputs_of_bit(level);
    }
}

proof fn lemma_hashed_digest(leaf: nat, levels: Seq<LevelValues>, root: nat, n: int)
    requires
        linked(leaf, levels, root),
        forall|i: int| 0 <= i < levels.len() ==> level_ok(#[trigger] levels[i]),
        forall|i: int| 0 <= i < levels.len() ==> is_reduced(#[trigger] levels[i]),
        0 <= n <= levels.len(),
    ensures
        hashed(leaf, levels, n) == digest_after(leaf, elements_of(levels), indices_of(levels), n),
    decreases n,
{
    if n > 0 {
        lemma_hashed_digest(leaf, levels, root, n - 1);
        let level = levels[n - 1];
        assert(level_ok(level) && is_reduced(level));
        positions_are_bits(level.index);
        lemma_inputs_of_bit(level);
        if level.index == 0 {
            lemma_equal(level.left, level.digest);
            lemma_equal(level.right, level.element);
        } else {
            lemma_equal(level.left, level.element);
            lemma_equal(level.right, level.digest);
        }
    }
}

/// An assignment whose levels are linked and meet their polynomials leads from
/// its leaf to its root: all its positions are bits, and the root is the one that
/// the path of its siblings and positions leads to.
pub proof fn satisfying_assignments_lead_to_the_root(
    leaf: nat,
    levels: Seq<LevelValues>,
    root: nat,
)
    requires
        linked(leaf, levels, root),
        forall|i: int| 0 <= i < levels.len() ==> level_ok(#[trigger] levels[i]),
        forall|i: int| 0 <= i < levels.len() ==> is_reduced(#[trigger] levels[i]),
    ensures
        forall|i: int|
            0 <= i < levels.len() ==> (#[trigger] levels[i]).index == 0 || levels[i].index == 1,
        root == digest_after(
            leaf,
            elements_of(levels),
            indices_of(levels),
            levels.len() as int,
        ),
{
    assert forall|i: int| 0 <= i < levels.len() implies (#[trigger] levels[i]).index == 0
        || levels[i].index == 1 by {
        assert(level_ok(levels[i]) && is_reduced(levels[i]));
        positions_are_bits(levels[i].index);
    }
    lemma_hashed_digest(leaf, levels, root, levels.len() as int);
}

/// A circuit over field elements is satisfied exactly where the public inputs are
/// its leaf and the root that its path leads to, and all its positions are bits.
pub proof fn circuits_accept_exactly_bits(circuit: MerkleTreeCircuit, inputs: Seq<Fp>)
    requires
        circuit.is_balanced(),
        forall|i: int|
            0 <= i < circuit.indices@.len() ==> (#[trigger] circuit.indices@[i])@
                < field::modulus(),
    ensures
        circuit.satisfied_by(inputs) <==> {
            &&& input_at(inputs, 0) == circuit.leaf@
            &&& input_at(inputs, 1) == circuit.digest(circuit.elements@.len() as int)
            &&& forall|i: int|
                0 <= i < circuit.indices@.len() ==> (#[trigger] circuit.indices@[i])@ == 0
                    || circuit.indices@[i]@ == 1
        },
{
    assert forall|i: int| 0 <= i < circuit.indices@.len() implies (level_ok(
        #[trigger] circuit.level(i),
    ) <==> (circuit.indices@[i]@ == 0 || circuit.indices@[i]@ == 1)) by {
        lemma_honest_level(circuit, i);
    }
    if circuit.satisfied_by(inputs) {
        assert forall|i: int| 0 <= i < circuit.indices@.len() implies (
        #[trigger] circuit.indices@[i])@ == 0 || circuit.indices@[i]@ == 1 by {
            assert(level_ok(circuit.level(i)));
        }
    }
}

/// The circuit for a path is satisfied exactly where the public inputs are the
/// leaf and the root that the path leads to, and all positions are bits.
pub proof fn circuits_accept_exactly_the_root(
    witness: MerkleWitness,
    circuit: MerkleTreeCircuit,
    inputs: Seq<Fp>,
)
    requires
        witness.indices@.len() == witness.elements@.len(),
        circuit.leaf@ == witness.leaf,
        values(circuit.elements@) == numbers(witness.elements@),
        values(circuit.indices@) == numbers(witness.indices@),
    ensures
        circuit.satisfied_by(inputs) <==> {
            &&& input_at(inputs, 0) == witness.leaf
            &&& input_at(inputs, 1) == root_of(witness.leaf, witness.elements@, witness.indices@)
            &&& forall|i: int|
                0 <= i < witness.indices@.len() ==> #[trigger] witness.indices@[i] == 0
                    || witness.indices@[i] == 1
        },
{
    let n = witness.elements@.len() as int;
    assert(numbers(witness.elements@).len() == n);
    assert(numbers(witness.indices@).len() == n);
    assert(values(circuit.elements@).len() == circuit.elements@.len());
    assert(values(circuit.indices@).len() == circuit.indices@.len());
    assert forall|i: int| 0 <= i < n implies (level_ok(#[trigger] circuit.level(i)) <==> (
    witness.indices@[i] == 0 || witness.indices@[i] == 1)) by {
        assert(values(circuit.indices@)[i] == circuit.indices@[i]@);
        assert(numbers(witness.indices@)[i] == witness.indices@[i]);
        lemma_honest_level(circuit, i);
    }
    if circuit.satisfied_by(inputs) {
        assert forall|i: int| 0 <= i < n implies #[trigger] witness.indices@[i] == 0
            || witness.indices@[i] == 1 by {
            assert(level_ok(circuit.level(i)));
        }
    }
}

} // verus!
