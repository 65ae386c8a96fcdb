//! Merkle paths.

use crate::commitment::field;
use crate::commitment::field::Fp;
use crate::commitment::merkle_tree;
use crate::commitment::merkle_tree::{
    MerkleLevel, MerkleTreeCircuit, MerkleTreeConfig, MerkleWitness,
};
use vstd::prelude::*;

verus! {

/// The running digests of a path.
spec fn digests(leaf: nat, elements: Seq<nat>, indices: Seq<nat>) -> Seq<nat> {
    Seq::new(
        elements.len() + 1,
        |n: int| merkle_tree::digest_after(leaf, elements, indices, n),
    )
}

/// A path hashes all its levels, from the leaf up: each running digest is the
/// Poseidon hash of the one below and the level's sibling, in this order where
/// the position is zero and in the other order elsewhere.
pub proof fn paths_hash_every_level(
    leaf: u64,
    elements: &[u64],
    indices: &[u64],
    root: Fp,
)
    requires
        indices@.len() >= elements@.len(),
        call_ensures(merkle_tree::merkle_tree_commit_fp, (&leaf, elements, indices), root),
    ensures
        exists|d: Seq<nat>|
            {
                &&& d.len() == elements@.len() + 1
                &&& d[0] == leaf as nat
                &&& d.last() == root@
                &&& forall|i: int|
                    0 <= i < elements@.len() ==> d[i + 1] == if indices@[i] == 0 {
                        field::poseidon_of(d[i], (#[trigger] elements@[i]) as nat)
                    } else {
                        field::poseidon_of(elements@[i] as nat, d[i])
                    }
            },
{
    let e = merkle_tree::numbers(elements@);
    let x = merkle_tree::numbers(indices@);
    let d = digests(leaf as nat, e, x);
    assert forall|i: int| 0 <= i < elements@.len() implies d[i + 1] == if indices@[i] == 0 {
        field::poseidon_of(d[i], (#[trigger] elements@[i]) as nat)
    } else {
        field::poseidon_of(elements@[i] as nat, d[i])
    } by {
        assert(e[i] == elements@[i] && x[i] == indices@[i]);
    }
    assert(d.last() == root@);
}

/// The root of a path with one more level is the Poseidon hash of the root of the
/// path without it and the last sibling, in this order where the last position
/// is zero and in the other order elsewhere; the root of no level is the leaf.
pub proof fn roots_grow_level_by_level(
    leaf: u64,
    elements: &[u64],
    indices: &[u64],
    root: Fp,
    shorter: &[u64],
    positions: &[u64],
    below: Fp,
)
    requires
        elements@.len() == shorter@.len() + 1,
        indices@.len() >= elements@.len(),
        positions@.len() >= shorter@.len(),
        forall|i: int| 0 <= i < shorter@.len() ==> #[trigger] shorter@[i] == elements@[i],
        forall|i: int| 0 <= i < shorter@.len() ==> #[trigger] positions@[i] == indices@[i],
        call_ensures(merkle_tree::merkle_tree_commit_fp, (&leaf, elements, indices), root),
        call_ensures(merkle_tree::merkle_tree_commit_fp, (&leaf, shorter, positions), below),
    ensures
        shorter@.len() == 0 ==> below@ == leaf,
        root@ == if indices@[shorter@.len() as int] == 0 {
            field::poseidon_of(below@, elements@[shorter@.len() as int] as nat)
        } else {
            field::poseidon_of(elements@[shorter@.len() as int] as nat, below@)
        },
{
    paths_hash_every_level(leaf, elements, indices, root);
    paths_hash_every_level(leaf, shorter, positions, below);
    let n = shorter@.len() as int;
    let d = choose|d: Seq<nat>|
        {
            &&& d.len() == elements@.len() + 1
            &&& d[0] == leaf as nat
            &&& d.last() == root@
            &&& forall|i: int|
                0 <= i < elements@.len() ==> d[i + 1] == if indices@[i] == 0 {
                    field::poseidon_of(d[i], (#[trigger] elements@[i]) as nat)
                } else {
                    field::poseidon_of(elements@[i] as nat, d[i])
                }
        };
    let c = choose|d: Seq<nat>|
        {
            &&& d.len() == shorter@.len() + 1
            &&& d[0] == leaf as nat
            &&& d.last() == below@
            &&& forall|i: int|
                0 <= i < shorter@.len() ==> d[i + 1] == if positions@[i] == 0 {
                    field::poseidon_of(d[i], (#[trigger] shorter@[i]) as nat)
                } else {
                    field::poseidon_of(shorter@[i] as nat, d[i])
                }
        };
    lemma_same_prefix(d, c, elements@, indices@, shorter@, positions@, n);
    assert(elements@[n] == elements@[n]);
}

proof fn lemma_same_prefix(
    d: Seq<nat>,
    c: Seq<nat>,
    elements: Seq<u64>,
    indices: Seq<u64>,
    shorter: Seq<u64>,
    positions: Seq<u64>,
    n: int,
)
    requires
        0 <= n <= shorter.len() <= elements.len(),
        d[0] == c[0],
        forall|i: int| 0 <= i < shorter.len() ==> #[trigger] shorter[i] == elements[i],
        forall|i: int| 0 <= i < shorter.len() ==> #[trigger] positions[i] == indices[i],
        forall|i: int|
            0 <= i < elements.len() ==> d[i + 1] == if indices[i] == 0 {
                field::poseidon_of(d[i], (#[trigger] elements[i]) as nat)
            } else {
                field::poseidon_of(elements[i] as nat, d[i])
            },
        forall|i: int|
            0 <= i < shorter.len() ==> c[i + 1] == if positions[i] == 0 {
                field::poseidon_of(c[i], (#[trigger] shorter[i]) as nat)
            } else {
                field::poseidon_of(shorter[i] as nat, c[i])
            },
    ensures
        d[n] == c[n],
    decreases n,
{
    if n > 0 {
        lemma_same_prefix(d, c, elements, indices, shorter, positions, n - 1);
        assert(shorter[n - 1] == elements[n - 1]);
        assert(positions[n - 1] == indices[n - 1]);
    }
}

/// A commitment to a path is the hash of all its levels.
pub proof fn commitments_hash_every_level(
    circuit: MerkleTreeCircuit,
    witness: MerkleWitness,
    commitment: Fp,
)
    requires
        witness.indices@.len() >= witness.elements@.len(),
        call_ensures(MerkleTreeCircuit::commit, (&circuit, witness), commitment),
    ensures
        exists|d: Seq<nat>|
            {
                &&& d.len() == witness.elements@.len() + 1
                &&& d[0] == witness.leaf as nat
                &&& d.last() == commitment@
                &&& forall|i: int|
                    0 <= i < witness.elements@.len() ==> d[i + 1] == if witness.indices@[i] == 0 {
                        field::poseidon_of(d[i], (#[trigger] witness.elements@[i]) as nat)
                    } else {
                        field::poseidon_of(witness.elements@[i] as nat, d[i])
                    }
            },
{
    lemma_root_chain(witness.leaf, witness.elements@, witness.indices@);
}

proof fn lemma_root_chain(leaf: u64, elements: Seq<u64>, indices: Seq<u64>)
    requires
        indices.len() >= elements.len(),
    ensures
        exists|d: Seq<nat>|
            {
                &&& d.len() == elements.len() + 1
                &&& d[0] == leaf as nat
                &&& d.last() == merkle_tree::root_of(leaf, elements, indices)
                &&& forall|i: int|
                    0 <= i < elements.len() ==> d[i + 1] == if indices[i] == 0 {
                        field::poseidon_of(d[i], (#[trigger] elements[i]) as nat)
                    } else {
                        field::poseidon_of(elements[i] as nat, d[i])
                    }
            },
{
    let e = merkle_tree::numbers(elements);
    let x = merkle_tree::numbers(indices);
    let d = digests(leaf as nat, e, x);
    assert forall|i: int| 0 <= i < elements.len() implies d[i + 1] == if indices[i] == 0 {
        field::poseidon_of(d[i], (#[trigger] elements[i]) as nat)
    } else {
        field::poseidon_of(elements[i] as nat, d[i])
    } by {
        assert(e[i] == elements[i] && x[i] == indices[i]);
    }
    assert(d.last() == merkle_tree::root_of(leaf, elements, indices));
}

/// The public inputs of a path are its leaf and the hash of all its levels.
pub proof fn public_inputs_are_leaf_and_root(witness: MerkleWitness, inputs: Vec<Fp>)
    requires
        witness.indices@.len() >= witness.elements@.len(),
        call_ensures(MerkleWitness::public_inputs, (&witness,), inputs),
    ensures
        inputs@.len() == 2,
        inputs@[0]@ == witness.leaf,
        exists|d: Seq<nat>|
            {
                &&& d.len() == witness.elements@.len() + 1
                &&& d[0] == witness.leaf as nat
                &&& d.last() == inputs@[1]@
                &&& forall|i: int|
                    0 <= i < witness.elements@.len() ==> d[i + 1] == if witness.indices@[i] == 0 {
                        field::poseidon_of(d[i], (#[trigger] witness.elements@[i]) as nat)
                    } else {
                        field::poseidon_of(witness.elements@[i] as nat, d[i])
                    }
            },
{
    let v = merkle_tree::values(inputs@);
    assert(v.len() == inputs@.len());
    assert(v[0] == inputs@[0]@ && v[1] == inputs@[1]@);
    lemma_root_chain(witness.leaf, witness.elements@, witness.indices@);
}

/// An opening is verified exactly when it lists the siblings of the path and the
/// commitment is the hash of all its levels.
pub proof fn openings_are_verified_against_all_levels(
    circuit: MerkleTreeCircuit,
    commitment: Fp,
    opening: Vec<u64>,
    witness: MerkleWitness,
    ok: bool,
)
    requires
        witness.indices@.len() >= witness.elements@.len(),
        call_ensures(MerkleTreeCircuit::verify, (&circuit, commitment, opening, witness), ok),
    ensures
        ok ==> opening@ == witness.elements@,
        opening@ == witness.elements@ ==> (ok <==> exists|d: Seq<nat>|
            {
                &&& d.len() == witness.elements@.len() + 1
                &&& d[0] == witness.leaf as nat
                &&& d.last() == commitment@
                &&& forall|i: int|
                    0 <= i < witness.elements@.len() ==> d[i + 1] == if witness.indices@[i] == 0 {
                        field::poseidon_of(d[i], (#[trigger] witness.elements@[i]) as nat)
                    } else {
                        field::poseidon_of(witness.elements@[i] as nat, d[i])
                    }
            }),
{
    lemma_root_chain(witness.leaf, witness.elements@, witness.indices@);
    let root = merkle_tree::root_of(witness.leaf, witness.elements@, witness.indices@);
    if opening@ == witness.elements@ && exists|d: Seq<nat>|
        {
            &&& d.len() == witness.elements@.len() + 1
            &&& d[0] == witness.leaf as nat
            &&& d.last() == commitment@
            &&& forall|i: int|
                0 <= i < witness.elements@.len() ==> d[i + 1] == if witness.indices@[i] == 0 {
                    field::poseidon_of(d[i], (#[trigger] witness.elements@[i]) as nat)
                } else {
                    field::poseidon_of(witness.elements@[i] as nat, d[i])
                }
        } {
        let d = choose|d: Seq<nat>|
            {
                &&& d.len() == witness.elements@.len() + 1
                &&& d[0] == witness.leaf as nat
                &&& d.last() == commitment@
                &&& forall|i: int|
                    0 <= i < witness.elements@.len() ==> d[i + 1] == if witness.indices@[i] == 0 {
                        field::poseidon_of(d[i], (#[trigger] witness.elements@[i]) as nat)
                    } else {
                        field::poseidon_of(witness.elements@[i] as nat, d[i])
                    }
            };
        let c = choose|d: Seq<nat>|
            {
                &&& d.len() == witness.elements@.len() + 1
                &&& d[0] == witness.leaf as nat
                &&& d.last() == root
                &&& forall|i: int|
                    0 <= i < witness.elements@.len() ==> d[i + 1] == if witness.indices@[i] == 0 {
                        field::poseidon_of(d[i], (#[trigger] witness.elements@[i]) as nat)
                    } else {
                        field::poseidon_of(witness.elements@[i] as nat, d[i])
                    }
            };
        lemma_same_prefix(
            d,
            c,
            witness.elements@,
            witness.indices@,
            witness.elements@,
            witness.indices@,
            witness.elements@.len() as int,
        );
    }
}

/// The circuit for a path holds its leaf, its siblings and its positions, all of
/// them and in order; the circuits without a path hold one level of zeros.
pub proof fn circuits_hold_their_path(
    witness: MerkleWitness,
    circuit: MerkleTreeCircuit,
    parts: (Fp, Vec<Fp>, Vec<Fp>),
    blank: MerkleTreeCircuit,
    start: MerkleTreeCircuit,
    k: Option<u32>,
)
    requires
        call_ensures(MerkleTreeCircuit::from_witness, (&witness,), circuit),
        call_ensures(MerkleWitness::to_circuit_format, (&witness,), parts),
        call_ensures(MerkleTreeCircuit::without_witnesses, (&circuit,), blank),
        call_ensures(MerkleTreeCircuit::setup, (k,), start),
    ensures
        circuit.leaf@ == witness.leaf,
        circuit.elements@.len() == witness.elements@.len(),
        circuit.indices@.len() == witness.indices@.len(),
        forall|i: int|
            0 <= i < witness.elements@.len() ==> (#[trigger] circuit.elements@[i])@
                == witness.elements@[i],
        forall|i: int|
            0 <= i < witness.indices@.len() ==> (#[trigger] circuit.indices@[i])@
                == witness.indices@[i],
        parts.0@ == witness.leaf,
        parts.1@.len() == witness.elements@.len(),
        parts.2@.len() == witness.indices@.len(),
        forall|i: int|
            0 <= i < witness.elements@.len() ==> (#[trigger] parts.1@[i])@ == witness.elements@[i],
        forall|i: int|
            0 <= i < witness.indices@.len() ==> (#[trigger] parts.2@[i])@ == witness.indices@[i],
        blank.leaf@ == 0,
        blank.elements@.len() == 1,
        blank.indices@.len() == 1,
        blank.elements@[0]@ == 0,
        blank.indices@[0]@ == 0,
        start.leaf@ == 0,
        start.elements@.len() == 1,
        start.indices@.len() == 1,
        start.elements@[0]@ == 0,
        start.indices@[0]@ == 0,
{
    lemma_listed(circuit.elements@, witness.elements@);
    lemma_listed(circuit.indices@, witness.indices@);
    lemma_listed(parts.1@, witness.elements@);
    lemma_listed(parts.2@, witness.indices@);
    lemma_zero(blank.elements@);
    lemma_zero(blank.indices@);
    lemma_zero(start.elements@);
    lemma_zero(start.indices@);
}

proof fn lemma_listed(a: Seq<Fp>, b: Seq<u64>)
    requires
        merkle_tree::values(a) == merkle_tree::numbers(b),
    ensures
        a.len() == b.len(),
        forall|i: int| 0 <= i < b.len() ==> (#[trigger] a[i])@ == b[i],
{
    assert(merkle_tree::values(a).len() == a.len());
    assert(merkle_tree::numbers(b).len() == b.len());
    assert forall|i: int| 0 <= i < b.len() implies (#[trigger] a[i])@ == b[i] by {
        assert(merkle_tree::values(a)[i] == a[i]@);
        assert(merkle_tree::numbers(b)[i] == b[i]);
    }
}

proof fn lemma_zero(a: Seq<Fp>)
    requires
        merkle_tree::values(a) == seq![0nat],
    ensures
        a.len() == 1,
        a[0]@ == 0,
{
    assert(merkle_tree::values(a).len() == a.len());
    assert(merkle_tree::values(a)[0] == 0);
}

/// The levels that a circuit lays out: one for each sibling, each with the
/// sibling, the position and the running digest as hash inputs, swapped unless
/// the position is zero. The running digest of the first is the leaf, of every
/// other the hash of the inputs below it, and the root is the last hash.
pub proof fn levels_are_linked_by_hashes(
    circuit: MerkleTreeCircuit,
    out: (Vec<MerkleLevel>, Fp),
)
    requires
        circuit.indices@.len() == circuit.elements@.len(),
        call_ensures(MerkleTreeCircuit::synthesize, (&circuit,), out),
    ensures
        out.0@.len() == circuit.elements@.len(),
        forall|i: int|
            0 <= i < out.0@.len() ==> {
                let level = #[trigger] out.0@[i];
                &&& level.element@ == circuit.elements@[i]@
                &&& level.index@ == circuit.indices@[i]@
                &&& level.digest@ == if i == 0 {
                    circuit.leaf@
                } else {
                    field::poseidon_of(out.0@[i - 1].left@, out.0@[i - 1].right@)
                }
                &&& level.left@ == if level.index@ == 0 {
                    level.digest@
                } else {
                    level.element@
                }
                &&& level.right@ == if level.index@ == 0 {
                    level.element@
                } else {
                    level.digest@
                }
            },
        out.1@ == if out.0@.len() == 0 {
            circuit.leaf@
        } else {
            field::poseidon_of(out.0@.last().left@, out.0@.last().right@)
        },
{
    let e = merkle_tree::values(circuit.elements@);
    let x = merkle_tree::values(circuit.indices@);
    assert forall|i: int| 0 <= i < out.0@.len() implies {
        let level = #[trigger] out.0@[i];
        &&& level.element@ == circuit.elements@[i]@
        &&& level.index@ == circuit.indices@[i]@
        &&& level.digest@ == if i == 0 {
            circuit.leaf@
        } else {
            field::poseidon_of(out.0@[i - 1].left@, out.0@[i - 1].right@)
        }
        &&& level.left@ == if level.index@ == 0 {
            level.digest@
        } else {
            level.element@
        }
        &&& level.right@ == if level.index@ == 0 {
            level.element@
        } else {
            level.digest@
        }
    } by {
        lemma_level(out.0@[i], circuit.level(i));
        if i > 0 {
            lemma_level(out.0@[i - 1], circuit.level(i - 1));
            assert(e[i - 1] == circuit.elements@[i - 1]@ && x[i - 1] == circuit.indices@[i - 1]@);
        }
    }
    let n = out.0@.len() as int;
    if n > 0 {
        lemma_level(out.0@[n - 1], circuit.level(n - 1));
        assert(e[n - 1] == circuit.elements@[n - 1]@ && x[n - 1] == circuit.indices@[n - 1]@);
    }
}

proof fn lemma_level(level: MerkleLevel, values: merkle_tree::LevelValues)
    requires
        level@ == values,
    ensures
        level.digest@ == values.digest,
        level.element@ == values.element,
        level.index@ == values.index,
        level.left@ == values.left,
        level.right@ == values.right,
{
}

/// A level of field elements meets the configured polynomials exactly when its
/// position is a bit and its hash inputs are the running digest and the sibling,
/// in this order where the position is zero and swapped where it is one.
pub proof fn levels_hold_exactly_when_routed_by_a_bit(
    config: MerkleTreeConfig,
    level: MerkleLevel,
    ok: bool,
)
    requires
        call_ensures(MerkleTreeConfig::configure, (), config),
        call_ensures(MerkleTreeConfig::holds_on, (&config, &level), ok),
        level.digest@ < 0x40000000000000000000000000000000224698fc094cf91b992d30ed00000001nat,
        level.element@ < 0x40000000000000000000000000000000224698fc094cf91b992d30ed00000001nat,
        level.index@ < 0x40000000000000000000000000000000224698fc094cf91b992d30ed00000001nat,
        level.left@ < 0x40000000000000000000000000000000224698fc094cf91b992d30ed00000001nat,
        level.right@ < 0x40000000000000000000000000000000224698fc094cf91b992d30ed00000001nat,
    ensures
        ok <==> {
            ||| level.index@ == 0 && level.left@ == level.digest@ && level.right@ == level.element@
            ||| level.index@ == 1 && level.left@ == level.element@ && level.right@ == level.digest@
        },
{
    lemma_level_ok(level);
}

proof fn lemma_level_ok(level: MerkleLevel)
    requires
        merkle_tree::is_reduced(level@),
    ensures
        merkle_tree::level_ok(level@) <==> {
            ||| level.index@ == 0 && level.left@ == level.digest@ && level.right@ == level.element@
            ||| level.index@ == 1 && level.left@ == level.element@ && level.right@ == level.digest@
        },
{
    let cells = level@;
    lemma_level(level, cells);
    merkle_tree::positions_are_bits(cells.index);
    if cells.index == 0 || cells.index == 1 {
        merkle_tree::lemma_inputs_of_bit(cells);
        if merkle_tree::level_ok(cells) {
            if cells.index == 0 {
                merkle_tree::lemma_equal(cells.left, cells.digest);
                merkle_tree::lemma_equal(cells.right, cells.element);
            } else {
                merkle_tree::lemma_equal(cells.left, cells.element);
                merkle_tree::lemma_equal(cells.right, cells.digest);
            }
        }
    }
}

/// An assignment of field elements is accepted exactly when its leaf and root are
/// the public inputs, an input that is not given counting as zero; the first
/// running digest is the leaf, every other the hash of the inputs below it, and
/// the root the last hash; and every level is routed by a bit.
pub proof fn assignments_are_accepted_exactly_when_linked(
    leaf: Fp,
    levels: Vec<MerkleLevel>,
    root: Fp,
    inputs: &[Fp],
    ok: bool,
)
    requires
        call_ensures(merkle_tree::assignment_holds, (&leaf, &levels, &root, inputs), ok),
        forall|i: int|
            0 <= i < levels@.len() ==> {
                let level = #[trigger] levels@[i];
                &&& level.digest@ < 0x40000000000000000000000000000000224698fc094cf91b992d30ed00000001nat
                &&& level.element@ < 0x40000000000000000000000000000000224698fc094cf91b992d30ed00000001nat
                &&& level.index@ < 0x40000000000000000000000000000000224698fc094cf91b992d30ed00000001nat
                &&& level.left@ < 0x40000000000000000000000000000000224698fc094cf91b992d30ed00000001nat
                &&& level.right@ < 0x40000000000000000000000000000000224698fc094cf91b992d30ed00000001nat
            },
    ensures
        ok <==> {
            &&& leaf@ == (if inputs@.len() > 0 {
                inputs@[0]@
            } else {
                0
            })
            &&& root@ == (if inputs@.len() > 1 {
                inputs@[1]@
            } else {
                0
            })
            &&& root@ == (if levels@.len() == 0 {
                leaf@
            } else {
                field::poseidon_of(levels@.last().left@, levels@.last().right@)
            })
            &&& forall|i: int|
                0 <= i < levels@.len() ==> {
                    let level = #[trigger] levels@[i];
                    &&& level.digest@ == if i == 0 {
                        leaf@
                    } else {
                        field::poseidon_of(levels@[i - 1].left@, levels@[i - 1].right@)
                    }
                    &&& {
                        ||| level.index@ == 0 && level.left@ == level.digest@ && level.right@
                            == level.element@
                        ||| level.index@ == 1 && level.left@ == level.element@ && level.right@
                            == level.digest@
                    }
                }
        },
{
    let cells = merkle_tree::level_values(levels@);
    assert forall|i: int| 0 <= i < levels@.len() implies cells[i] == (#[trigger] levels@[i])@ by {}
    assert forall|i: int| 0 <= i < levels@.len() implies (merkle_tree::level_ok(
        (#[trigger] levels@[i])@,
    ) <==> {
        ||| levels@[i].index@ == 0 && levels@[i].left@ == levels@[i].digest@ && levels@[i].right@
            == levels@[i].element@
        ||| levels@[i].index@ == 1 && levels@[i].left@ == levels@[i].element@
            && levels@[i].right@ == levels@[i].digest@
    }) by {
        lemma_level_ok(levels@[i]);
    }
    assert forall|i: int| 0 <= i < levels@.len() implies ((#[trigger] levels@[i]).digest@
        == merkle_tree::hashed(leaf@, cells, i) <==> levels@[i].digest@ == if i == 0 {
        leaf@
    } else {
        field::poseidon_of(levels@[i - 1].left@, levels@[i - 1].right@)
    }) by {
        if i > 0 {
            lemma_level(levels@[i - 1], cells[i - 1]);
        }
    }
    assert forall|i: int| 0 <= i < cells.len() implies (#[trigger] cells[i]).digest
        == levels@[i].digest@ by {
        lemma_level(levels@[i], cells[i]);
    }
    if levels@.len() > 0 {
        lemma_level(levels@.last(), cells[levels@.len() - 1]);
    }
    if ok {
        assert forall|i: int| 0 <= i < levels@.len() implies (#[trigger] levels@[i]).digest@
            == merkle_tree::hashed(leaf@, cells, i) by {
            assert(cells[i].digest == merkle_tree::hashed(leaf@, cells, i));
        }
    }
    if forall|i: int|
        0 <= i < levels@.len() ==> {
            let level = #[trigger] levels@[i];
            &&& level.digest@ == if i == 0 {
                leaf@
            } else {
                field::poseidon_of(levels@[i - 1].left@, levels@[i - 1].right@)
            }
            &&& {
                ||| level.index@ == 0 && level.left@ == level.digest@ && level.right@
                    == level.element@
                ||| level.index@ == 1 && level.left@ == level.element@ && level.right@
                    == level.digest@
            }
        } {
        assert forall|i: int| 0 <= i < cells.len() implies (#[trigger] cells[i]).digest
            == merkle_tree::hashed(leaf@, cells, i) by {
            assert(levels@[i].digest@ == merkle_tree::hashed(leaf@, cells, i));
        }
        assert forall|i: int| 0 <= i < levels@.len() implies merkle_tree::level_ok(
            (#[trigger] levels@[i])@,
        ) by {}
    }
}

/// A circuit over field elements is satisfied exactly when all its positions are
/// bits, its leaf is the first public input, and the hash of all its levels is
/// the second; an input that is not given counts as zero.
pub proof fn circuits_are_satisfied_exactly_by_leaf_and_root(
    circuit: MerkleTreeCircuit,
    inputs: &[Fp],
    ok: bool,
    out: (Vec<MerkleLevel>, Fp),
)
    requires
        circuit.indices@.len() == circuit.elements@.len(),
        forall|i: int| 0 <= i < circuit.indices@.len() ==> (#[trigger] circuit.indices@[i])@ < 0x40000000000000000000000000000000224698fc094cf91b992d30ed00000001nat,
        call_ensures(MerkleTreeCircuit::is_satisfied, (&circuit, inputs), ok),
        call_ensures(MerkleTreeCircuit::synthesize, (&circuit,), out),
    ensures
        ok <==> {
            &&& circuit.leaf@ == (if inputs@.len() > 0 {
                inputs@[0]@
            } else {
                0
            })
            &&& out.1@ == (if inputs@.len() > 1 {
                inputs@[1]@
            } else {
                0
            })
            &&& forall|i: int|
                0 <= i < circuit.indices@.len() ==> (#[trigger] circuit.indices@[i])@ == 0
                    || circuit.indices@[i]@ == 1
        },
{
    merkle_tree::circuits_accept_exactly_bits(circuit, inputs@);
}

/// Field elements are added, subtracted and multiplied modulo the order of the
/// field, and hashed in the order in which they are given.
pub proof fn elements_are_reduced_by_the_order_of_the_field(
    a: Fp,
    b: Fp,
    sum: Fp,
    difference: Fp,
    product: Fp,
    digest: Fp,
    same: bool,
)
    requires
        call_ensures(Fp::plus, (&a, &b), sum),
        call_ensures(Fp::minus, (&a, &b), difference),
        call_ensures(Fp::times, (&a, &b), product),
        call_ensures(Fp::hash, (&a, &b), digest),
        call_ensures(Fp::equals, (&a, &b), same),
    ensures
        sum@ == (a@ + b@)
            % 0x40000000000000000000000000000000224698fc094cf91b992d30ed00000001nat,
        difference@ == (a@ - b@)
            % 0x40000000000000000000000000000000224698fc094cf91b992d30ed00000001int,
        product@ == (a@ * b@)
            % 0x40000000000000000000000000000000224698fc094cf91b992d30ed00000001nat,
        digest@ == field::poseidon_of(a@, b@),
        same == (a@ == b@),
{
}

/// Numbers are field elements as they are.
pub proof fn numbers_are_elements(n: u64, x: Fp, zero: Fp, one: Fp, is_zero: bool)
    requires
        call_ensures(Fp::from_u64, (n,), x),
        call_ensures(Fp::zero, (), zero),
        call_ensures(Fp::one, (), one),
        call_ensures(Fp::is_zero, (&x,), is_zero),
    ensures
        x@ == n,
        zero@ == 0,
        one@ == 1,
        is_zero == (n == 0),
{
}

/// A level hashes the running digest before its sibling where the position is
/// zero, and after it elsewhere.
pub proof fn positions_order_the_hash_inputs(digest: Fp, element: Fp, index: Fp, inputs: (Fp, Fp))
    requires
        call_ensures(merkle_tree::hash_inputs, (&digest, &element, &index), inputs),
    ensures
        index@ == 0 ==> inputs == (digest, element),
        index@ != 0 ==> inputs == (element, digest),
{
}

/// Every path with a position for each sibling is taken, of whatever length.
pub proof fn complete_paths_are_taken(
    circuit: MerkleTreeCircuit,
    commitment: Fp,
    opening: Vec<u64>,
    witness: MerkleWitness,
    elements: &[u64],
    indices: &[u64],
    inputs: &[Fp],
)
    requires
        witness.indices@.len() >= witness.elements@.len(),
        indices@.len() >= elements@.len(),
        circuit.indices@.len() == circuit.elements@.len(),
    ensures
        call_requires(merkle_tree::merkle_tree_commit_fp, (&witness.leaf, elements, indices)),
        call_requires(MerkleWitness::public_inputs, (&witness,)),
        call_requires(MerkleTreeCircuit::commit, (&circuit, witness)),
        call_requires(MerkleTreeCircuit::verify, (&circuit, commitment, opening, witness)),
        call_requires(MerkleTreeCircuit::synthesize, (&circuit,)),
        call_requires(MerkleTreeCircuit::is_satisfied, (&circuit, inputs)),
{
}

/// An opened path is its siblings, and what was committed to is verified.
pub proof fn opened_commitments_are_verified(
    circuit: MerkleTreeCircuit,
    other: MerkleTreeCircuit,
    witness: MerkleWitness,
    commitment: Fp,
    opening: Vec<u64>,
    ok: bool,
)
    requires
        witness.indices@.len() >= witness.elements@.len(),
        call_ensures(MerkleTreeCircuit::commit, (&circuit, witness), commitment),
        call_ensures(MerkleTreeCircuit::open, (&circuit, witness), opening),
        call_ensures(MerkleTreeCircuit::verify, (&other, commitment, opening, witness), ok),
    ensures
        opening@ == witness.elements@,
        ok,
{
}

} // verus!
