//! The backend that runs a circuit: what it hands on, and what becomes of the
//! outcomes.

use crate::backend;
use crate::backend::{
    CircuitOutcome, ConsistencyCircuit, Halo2Attestation, Halo2Backend, MemoryConsistencyBackend,
};
use crate::laws::records as order_laws;
use crate::machine;
use crate::machine::TraceRecord;
use crate::perm;
use crate::zincplus::witness;
use vstd::prelude::*;

verus! {

/// The positions that a sorted trace lists: each once, by address, then by time,
/// then by position.
pub proof fn sorted_traces_list_the_records_in_order(
    records: &[TraceRecord],
    sorted: Vec<TraceRecord>,
) -> (order: Seq<usize>)
    requires
        call_ensures(backend::sort_trace_by_address_time, (records,), sorted),
    ensures
        order.len() == records@.len(),
        forall|i: int| 0 <= i < order.len() ==> (#[trigger] order[i]) < order.len(),
        forall|i: int, j: int|
            0 <= i < j < order.len() ==> {
                let a = records@[#[trigger] order[i] as int]@;
                let b = records@[#[trigger] order[j] as int]@;
                ||| a.address < b.address
                ||| a.address == b.address && a.time < b.time
                ||| a.address == b.address && a.time == b.time && order[i] < order[j]
            },
        sorted@.len() == records@.len(),
        forall|i: int| 0 <= i < order.len() ==> #[trigger] sorted@[i] == records@[order[i] as int],
{
    lemma_sorted_form(sorted@, records)
}

proof fn lemma_sorted_form(sorted: Seq<TraceRecord>, records: &[TraceRecord]) -> (order: Seq<usize>)
    requires
        backend::is_sorted_form(sorted, records@),
    ensures
        order.len() == records@.len(),
        forall|i: int| 0 <= i < order.len() ==> (#[trigger] order[i]) < order.len(),
        forall|i: int, j: int|
            0 <= i < j < order.len() ==> {
                let a = records@[#[trigger] order[i] as int]@;
                let b = records@[#[trigger] order[j] as int]@;
                ||| a.address < b.address
                ||| a.address == b.address && a.time < b.time
                ||| a.address == b.address && a.time == b.time && order[i] < order[j]
            },
        sorted.len() == records@.len(),
        forall|i: int| 0 <= i < order.len() ==> #[trigger] sorted[i] == records@[order[i] as int],
{
    let order = choose|order: Seq<usize>| #[trigger]
        witness::sorts(order, machine::accesses(records@)) && sorted == perm::permuted(
            records@,
            order,
        );
    order_laws::lemma_listed(records@, order);
    order
}

/// The outcome of a check decides the result, and its text is the error's.
pub proof fn outcomes_of_checks_decide(outcome: CircuitOutcome, out: Result<(), String>)
    requires
        call_ensures(backend::checked, (outcome,), out),
    ensures
        match outcome {
            CircuitOutcome::Satisfied => out is Ok,
            CircuitOutcome::NotLaidOut(reason) => out matches Err(msg) && msg@ == "synthesis: "@
                + reason@,
            CircuitOutcome::Failed(failures) => out matches Err(msg) && msg@ == "constraint check: "@
                + failures@,
        },
{
}

/// A check runs the circuit on `2^k` rows for the trace and what sorting makes of
/// it, and the outcome is the result.
pub proof fn checks_run_the_circuit_on_the_sorted_trace<'a, C: ConsistencyCircuit>(
    backend: Halo2Backend<C>,
    records: &'a [TraceRecord],
    sorted: Vec<TraceRecord>,
    out: Result<(), String>,
) -> (handed: (&'a [TraceRecord], CircuitOutcome))
    requires
        call_ensures(backend::sort_trace_by_address_time, (records,), sorted),
        call_ensures(Halo2Backend::<C>::check, (&backend, records), out),
    ensures
        handed.0@ == sorted@,
        call_ensures(C::run, (&backend.circuit, backend.k, records, handed.0), handed.1),
        match handed.1 {
            CircuitOutcome::Satisfied => out is Ok,
            CircuitOutcome::NotLaidOut(reason) => out matches Err(msg) && msg@ == "synthesis: "@
                + reason@,
            CircuitOutcome::Failed(failures) => out matches Err(msg) && msg@ == "constraint check: "@
                + failures@,
        },
{
    let (shuffle, outcome) = choose|shuffle: &[TraceRecord], outcome: CircuitOutcome| #[trigger]
        backend::check_of_trace(&backend.circuit, backend.k, records, shuffle, outcome, out);
    backend::sorted_forms_are_unique(shuffle@, sorted@, records@);
    (shuffle, outcome)
}

/// Proving with the circuit's backend is checking.
pub proof fn proving_runs_the_circuit_on_the_sorted_trace<'a, C: ConsistencyCircuit>(
    backend: Halo2Backend<C>,
    records: &'a [TraceRecord],
    sorted: Vec<TraceRecord>,
    out: Result<Halo2Attestation, String>,
) -> (handed: (&'a [TraceRecord], CircuitOutcome))
    requires
        call_ensures(backend::sort_trace_by_address_time, (records,), sorted),
        call_ensures(Halo2Backend::<C>::prove, (&backend, records), out),
    ensures
        handed.0@ == sorted@,
        call_ensures(C::run, (&backend.circuit, backend.k, records, handed.0), handed.1),
        match handed.1 {
            CircuitOutcome::Satisfied => out is Ok,
            CircuitOutcome::NotLaidOut(reason) => out matches Err(msg) && msg@ == "synthesis: "@
                + reason@,
            CircuitOutcome::Failed(failures) => out matches Err(msg) && msg@ == "constraint check: "@
                + failures@,
        },
{
    let (shuffle, outcome) = choose|shuffle: &[TraceRecord], outcome: CircuitOutcome| #[trigger]
        backend::check_of_trace(&backend.circuit, backend.k, records, shuffle, outcome, out);
    backend::sorted_forms_are_unique(shuffle@, sorted@, records@);
    (shuffle, outcome)
}

/// Verifying what was proved runs the verifier's circuit again, on the same trace
/// and its sorted form and on as many rows as when it was proved.
pub proof fn verifying_runs_the_circuit_again<'a, C: ConsistencyCircuit>(
    backend: Halo2Backend<C>,
    other: Halo2Backend<C>,
    records: &'a [TraceRecord],
    sorted: Vec<TraceRecord>,
    attestation: Halo2Attestation,
    out: Result<(), String>,
) -> (handed: (&'a [TraceRecord], CircuitOutcome, &'a [TraceRecord]))
    requires
        call_ensures(backend::sort_trace_by_address_time, (records,), sorted),
        call_ensures(Halo2Backend::<C>::prove, (&backend, records), Ok(attestation)),
        call_ensures(Halo2Backend::<C>::verify, (&other, &attestation), out),
    ensures
        handed.0@ == records@,
        handed.2@ == sorted@,
        call_ensures(C::run, (&other.circuit, backend.k, handed.0, handed.2), handed.1),
        match handed.1 {
            CircuitOutcome::Satisfied => out is Ok,
            CircuitOutcome::NotLaidOut(reason) => out matches Err(msg) && msg@ == "synthesis: "@
                + reason@,
            CircuitOutcome::Failed(failures) => out matches Err(msg) && msg@ == "constraint check: "@
                + failures@,
        },
{
    let (input, shuffle, outcome) = choose|
        input: &[TraceRecord],
        shuffle: &[TraceRecord],
        outcome: CircuitOutcome,
    |
        input@ == attestation.checked() && #[trigger] backend::check_of_trace(
            &other.circuit,
            attestation.size(),
            input,
            shuffle,
            outcome,
            out,
        );
    backend::sorted_forms_are_unique(shuffle@, sorted@, records@);
    (input, outcome, shuffle)
}

} // verus!
