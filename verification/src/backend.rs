//! Backends for the memory-consistency statement.
//!
//! Every backend takes the trace in execution order and proves the same
//! statement of it: it starts at time zero, time increases, and every read
//! returns the last value written to its address.
//!
//! [`Halo2Backend`] hands the trace and its sorted form to a circuit that checks
//! the statement and leaves no transferable proof. [`ZincPlusBackend`] hands a
//! witness to a proof system. Both are plugged in; the functions here decide
//! what they are handed and what their outcomes mean.

use crate::consistency;
use crate::machine;
use crate::machine::TraceRecord;
use crate::order;
use crate::perm;
use crate::zincplus::error;
use crate::zincplus::error::ZincMemoryError;
use crate::zincplus::layout;
use crate::zincplus::prover;
use crate::zincplus::prover::{ProofSystem, ZincMemoryProof};
use crate::zincplus::trace;
use crate::zincplus::trace::UairTrace;
use crate::zincplus::unique;
use crate::zincplus::witness;
use vstd::prelude::*;

verus! {

/// A proof system for the memory-consistency statement.
pub trait MemoryConsistencyBackend {
    /// The artifact that [`Self::prove`] produces.
    type Proof;

    /// The error of this backend.
    type Error;

    /// Prove that a trace, given in execution order, accesses memory
    /// consistently.
    fn prove(&self, records: &[TraceRecord]) -> Result<Self::Proof, Self::Error>;

    /// Verify what [`Self::prove`] produced.
    fn verify(&self, proof: &Self::Proof) -> Result<(), Self::Error>;
}

/// `sorted` lists the records of a trace by address, then by time.
pub open spec fn is_sorted_form(sorted: Seq<TraceRecord>, records: Seq<TraceRecord>) -> bool {
    exists|order: Seq<usize>| #[trigger]
        witness::sorts(order, machine::accesses(records)) && sorted == perm::permuted(
            records,
            order,
        )
}

/// Sort a trace by address, then by time.
pub fn sort_trace_by_address_time(records: &[TraceRecord]) -> (sorted: Vec<TraceRecord>)
    ensures
        is_sorted_form(sorted@, records@),
{
    let positions = order::sort_order(records);
    let sorted = order::reordered(records, &positions);
    assert(witness::sorts(positions@, machine::accesses(records@)));
    sorted
}

/// A trace has one sorted form.
pub proof fn sorted_forms_are_unique(
    a: Seq<TraceRecord>,
    b: Seq<TraceRecord>,
    records: Seq<TraceRecord>,
)
    requires
        is_sorted_form(a, records),
        is_sorted_form(b, records),
    ensures
        a == b,
{
    let o = machine::accesses(records);
    let p = choose|order: Seq<usize>| #[trigger]
        witness::sorts(order, o) && a == perm::permuted(records, order);
    let q = choose|order: Seq<usize>| #[trigger]
        witness::sorts(order, o) && b == perm::permuted(records, order);
    unique::orders_are_unique(o, p, q);
}

/// What came of checking a circuit.
#[derive(Clone, Debug, PartialEq, Eq)]
pub enum CircuitOutcome {
    /// All constraints are satisfied.
    Satisfied,
    /// The circuit could not be laid out, for the reason given.
    NotLaidOut(String),
    /// Constraints fail, as described.
    Failed(String),
}

/// The composed circuit for the memory-consistency statement: time order of the
/// original trace, consistency of the sorted one, and the permutation between
/// the two. Nothing is assumed of it: a caller learns from its outcomes alone.
pub trait ConsistencyCircuit {
    /// Lay the circuit out on `2^k` rows for a trace in execution order and its
    /// sorted form, without public inputs, and check its constraints.
    fn run(&self, k: u32, input: &[TraceRecord], shuffle: &[TraceRecord]) -> CircuitOutcome;
}

/// The backend that checks the composed circuit and produces no transferable
/// proof.
#[derive(Clone, Debug)]
pub struct Halo2Backend<C> {
    /// The circuit has `2^k` rows, which must exceed the length of the trace and
    /// the blinding rows, and hold the circuit's lookup tables.
    pub k: u32,
    /// The circuit.
    pub circuit: C,
}

/// What a successful [`Halo2Backend`] leaves behind: the trace that was
/// checked, so that the check can be run again.
#[derive(Clone, Debug)]
pub struct Halo2Attestation {
    trace: Vec<TraceRecord>,
    k: u32,
}

impl Halo2Attestation {
    /// The trace that was checked.
    pub closed spec fn checked(&self) -> Seq<TraceRecord> {
        self.trace@
    }

    /// The size parameter of the circuit.
    pub closed spec fn size(&self) -> u32 {
        self.k
    }
}

/// A result is as the outcome of a check says.
pub open spec fn as_checked<T>(out: Result<T, String>, outcome: CircuitOutcome) -> bool {
    match outcome {
        CircuitOutcome::Satisfied => out is Ok,
        CircuitOutcome::NotLaidOut(reason) => out matches Err(msg) && msg@ == "synthesis: "@
            + reason@,
        CircuitOutcome::Failed(failures) => out matches Err(msg) && msg@ == "constraint check: "@
            + failures@,
    }
}

/// The result for the outcome of a check.
pub fn checked(outcome: CircuitOutcome) -> (out: Result<(), String>)
    ensures
        as_checked(out, outcome),
{
    match outcome {
        CircuitOutcome::Satisfied => Ok(()),
        CircuitOutcome::NotLaidOut(reason) => Err(error::with_text("synthesis: ", &reason)),
        CircuitOutcome::Failed(failures) => Err(error::with_text("constraint check: ", &failures)),
    }
}

/// A check ran the circuit on `2^k` rows for a trace and its sorted form, and
/// the outcome is the result.
pub open spec fn check_of_trace<C: ConsistencyCircuit, T>(
    circuit: &C,
    k: u32,
    input: &[TraceRecord],
    shuffle: &[TraceRecord],
    outcome: CircuitOutcome,
    out: Result<T, String>,
) -> bool {
    &&& is_sorted_form(shuffle@, input@)
    &&& call_ensures(C::run, (circuit, k, input, shuffle), outcome)
    &&& as_checked(out, outcome)
}

/// Run the composed circuit on `2^k` rows for a trace and its sorted form.
fn check_circuit<C: ConsistencyCircuit>(circuit: &C, k: u32, records: &[TraceRecord]) -> (out:
    Result<(), String>)
    ensures
        exists|shuffle: &[TraceRecord], outcome: CircuitOutcome| #[trigger]
            check_of_trace(circuit, k, records, shuffle, outcome, out),
{
    let sorted = sort_trace_by_address_time(records);
    let shuffle = sorted.as_slice();
    let outcome = circuit.run(k, records, shuffle);
    let ghost seen = outcome;
    let out = checked(outcome);
    assert(check_of_trace(circuit, k, records, shuffle, seen, out));
    out
}

/// A copy of a trace.
fn copied(records: &[TraceRecord]) -> (copy: Vec<TraceRecord>)
    ensures
        copy@ == records@,
{
    let mut copy: Vec<TraceRecord> = Vec::new();
    let mut i: usize = 0;
    while i < records.len()
        invariant
            i <= records@.len(),
            copy@ == records@.take(i as int),
        decreases records@.len() - i,
    {
        copy.push(records[i]);
        assert(copy@ =~= records@.take(i + 1));
        i = i + 1;
    }
    assert(copy@ =~= records@);
    copy
}

impl<C: ConsistencyCircuit> Halo2Backend<C> {
    /// Run the composed circuit on a trace and its sorted form.
    pub fn check(&self, records: &[TraceRecord]) -> (out: Result<(), String>)
        ensures
            exists|shuffle: &[TraceRecord], outcome: CircuitOutcome| #[trigger]
                check_of_trace(&self.circuit, self.k, records, shuffle, outcome, out),
    {
        check_circuit(&self.circuit, self.k, records)
    }
}

impl<C: ConsistencyCircuit> MemoryConsistencyBackend for Halo2Backend<C> {
    type Proof = Halo2Attestation;

    type Error = String;

    fn prove(&self, records: &[TraceRecord]) -> (out: Result<Halo2Attestation, String>)
        ensures
            exists|shuffle: &[TraceRecord], outcome: CircuitOutcome| #[trigger]
                check_of_trace(&self.circuit, self.k, records, shuffle, outcome, out),
            out matches Ok(a) ==> a.checked() == records@ && a.size() == self.k,
    {
        let result = self.check(records);
        let ghost (shuffle, outcome) = choose|shuffle: &[TraceRecord], outcome: CircuitOutcome|
            #[trigger] check_of_trace(&self.circuit, self.k, records, shuffle, outcome, result);
        let out = match result {
            Err(msg) => Err(msg),
            Ok(()) => Ok(Halo2Attestation { trace: copied(records), k: self.k }),
        };
        assert(check_of_trace(&self.circuit, self.k, records, shuffle, outcome, out));
        out
    }

    fn verify(&self, proof: &Halo2Attestation) -> (out: Result<(), String>)
        ensures
            exists|input: &[TraceRecord], shuffle: &[TraceRecord], outcome: CircuitOutcome|
                input@ == proof.checked() && #[trigger] check_of_trace(
                    &self.circuit,
                    proof.size(),
                    input,
                    shuffle,
                    outcome,
                    out,
                ),
    {
        let input = proof.trace.as_slice();
        let out = check_circuit(&self.circuit, proof.k, input);
        proof {
            let (shuffle, outcome) = choose|shuffle: &[TraceRecord], outcome: CircuitOutcome|
                #[trigger] check_of_trace(&self.circuit, proof.k, input, shuffle, outcome, out);
            assert(input@ == proof.checked());
            assert(check_of_trace(&self.circuit, proof.size(), input, shuffle, outcome, out));
        }
        out
    }
}

/// The circuit on `2^k` rows is satisfied by exactly the traces that start at
/// time zero, whose time increases and whose reads return the last value written.
pub open spec fn decides_the_statement<C: ConsistencyCircuit>(circuit: &C, k: u32) -> bool {
    forall|input: &[TraceRecord], shuffle: &[TraceRecord], outcome: CircuitOutcome|
        is_sorted_form(shuffle@, input@) && #[trigger] call_ensures(
            C::run,
            (circuit, k, input, shuffle),
            outcome,
        ) ==> (outcome is Satisfied <==> consistency::statement(machine::accesses(input@)))
}

/// Where the circuit decides the statement, a trace is proved exactly when it
/// accesses memory consistently, and what one backend with that circuit produced,
/// every other verifies, whatever its own row count.
pub proof fn produced_attestations_verify<C: ConsistencyCircuit>(
    backend: Halo2Backend<C>,
    other: Halo2Backend<C>,
    records: &[TraceRecord],
    proved: Result<Halo2Attestation, String>,
    verdict: Result<(), String>,
)
    requires
        other.circuit == backend.circuit,
        decides_the_statement(&backend.circuit, backend.k),
        call_ensures(Halo2Backend::<C>::prove, (&backend, records), proved),
        proved matches Ok(a) ==> call_ensures(Halo2Backend::<C>::verify, (&other, &a), verdict),
    ensures
        proved is Ok <==> consistency::statement(machine::accesses(records@)),
        proved is Ok ==> verdict is Ok,
{
}

/// The backend that proves satisfaction of the constraint system with a proof
/// system.
#[derive(Clone, Debug, Default)]
pub struct ZincPlusBackend<S> {
    /// The proof system.
    pub system: S,
}

impl<S: ProofSystem> MemoryConsistencyBackend for ZincPlusBackend<S> {
    type Proof = ZincMemoryProof<S::Proof>;

    type Error = ZincMemoryError;

    fn prove(&self, records: &[TraceRecord]) -> (out: Result<
        ZincMemoryProof<S::Proof>,
        ZincMemoryError,
    >)
        ensures
            match witness::input_rejection(machine::accesses(records@)) {
                Some(e) => out == Err::<ZincMemoryProof<S::Proof>, ZincMemoryError>(e),
                None => exists|t: UairTrace, outcome: Result<S::Proof, String>| #[trigger]
                    prover::proof_of_trace(
                        &self.system,
                        machine::accesses(records@),
                        t,
                        outcome,
                        out,
                    ),
            },
    {
        prover::prove_memory_consistency(&self.system, records)
    }

    fn verify(&self, proof: &ZincMemoryProof<S::Proof>) -> (out: Result<(), ZincMemoryError>)
        ensures
            !layout::supported(proof.exponent()) ==> prover::refuses_exponent(
                out,
                proof.exponent(),
            ),
            layout::supported(proof.exponent()) ==> exists|
                public_trace: UairTrace,
                outcome: Result<(), String>,
            | #[trigger]
                prover::verdict_on_proof(&self.system, proof, public_trace, outcome, out),
    {
        prover::verify_memory_consistency(&self.system, proof)
    }
}

/// The two backends decide the same statement: where a trace is accepted for
/// proving, a circuit that decides the statement accepts it exactly when its
/// witness satisfies the constraint system.
pub proof fn backends_decide_the_same_statement<C: ConsistencyCircuit>(
    backend: Halo2Backend<C>,
    records: &[TraceRecord],
    proved: Result<Halo2Attestation, String>,
    t: UairTrace,
)
    requires
        decides_the_statement(&backend.circuit, backend.k),
        call_ensures(Halo2Backend::<C>::prove, (&backend, records), proved),
        witness::input_rejection(machine::accesses(records@)) is None,
        witness::witnesses(
            t,
            witness::exponent_for(records@.len() as int),
            machine::accesses(records@),
        ),
    ensures
        proved is Ok <==> trace::satisfied(t, witness::exponent_for(records@.len() as int)),
{
    let o = machine::accesses(records@);
    let v = witness::exponent_for(o.len() as int);
    let order = choose|order: Seq<usize>| #[trigger]
        witness::sorts(order, o) && witness::is_witness(t, v, o, order);
    witness::witnesses_satisfy_exactly_the_consistent_traces(t, v, o, order);
}

} // verus!
