# zkmemory

A verified library that shows that execution traces access memory
consistently: they start at time zero, time increases, and every read returns
the last value written to its address.

- `src/consistency.rs` says what consistency means and that sorting a trace by
  address and time decides it.
- `src/zincplus/` holds a constraint system for it: the columns (`layout`), the
  constraints (`uair`), what satisfying them shows (`trace`), the witness of an
  execution trace (`limbs`, `benes`, `witness`), that it is the only one
  (`unique`), and proofs (`prover`).
- `src/backend.rs` offers the check of the statement by a circuit and the proof of
  it behind one trait. The circuit and the proof system are plugged in.
- `src/commitment/` computes Merkle roots with the Poseidon hash over the Pallas
  base field and describes the circuit for a path. `prime` and `modulus` show that
  the modulus of that field is prime, which makes the positions on a path bits.
- `app/` connects the library to Halo2 and Zinc+.

Three statements carry the library. A trace that satisfies the constraint system
holds a consistent execution trace (`satisfying_traces_are_consistent`). The
witness that is built for an execution trace satisfies the system exactly when
the execution trace is consistent
(`witnesses_satisfy_exactly_the_consistent_traces`). An assignment that satisfies
the Merkle circuit leads from its leaf to its root
(`satisfying_assignments_lead_to_the_root`).

The Poseidon hash and the arithmetic of the field come from `halo2_poseidon`
and `pasta_curves`; `src/commitment/field.rs` states what is relied upon.
