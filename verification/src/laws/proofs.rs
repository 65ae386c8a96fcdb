//! Proving, verifying, writing and reading proofs.
//!
//! What the proof system is handed, and what becomes of its outcomes, by the
//! functions of the prover and by the backend that calls them.

use crate::backend::{MemoryConsistencyBackend, ZincPlusBackend};
use crate::consistency;
use crate::laws::witness as tables;
use crate::machine;
use crate::machine::TraceRecord;
use crate::zincplus::benes;
use crate::zincplus::error;
use crate::zincplus::error::ZincMemoryError;
use crate::zincplus::prover;
use crate::zincplus::prover::{ProofSystem, ZincMemoryProof};
use crate::zincplus::trace;
use crate::zincplus::trace::UairTrace;
use crate::zincplus::types;
use crate::zincplus::types::CommitmentSizes;
use crate::zincplus::uair::{MemoryConsistencyUair, UairSignature};
use crate::zincplus::unique;
use crate::zincplus::witness;
use vstd::arithmetic::power2::*;
use vstd::prelude::*;

verus! {

proof fn lemma_sizes(v: int)
    requires
        v >= 0,
    ensures
        types::sizes_for(v) == (CommitmentSizes {
            poly_size: pow2(v as nat) as usize,
            folded_poly_size: (4 * pow2(v as nat)) as usize,
        }),
{
    lemma_pow2_unfold((v + 1) as nat);
    lemma_pow2_unfold((v + 2) as nat);
}

/// A proof of a supported exponent `v` is handed to the proof system's verifier
/// with the sizes `2^v` and `4 * 2^v` and with the public columns alone: `1 + v`
/// integer columns of `2^v` rows, column zero one in row zero alone and column
/// `1 + k` one in exactly the rows whose index has bit `k` clear. The verifier's
/// outcome is the verdict.
pub proof fn verifiers_are_handed_the_public_columns<S: ProofSystem>(
    backend: &ZincPlusBackend<S>,
    proof: &ZincMemoryProof<S::Proof>,
    v: usize,
    verdict: Result<(), ZincMemoryError>,
) -> (handed: (UairTrace, Result<(), String>))
    requires
        call_ensures(ZincMemoryProof::<S::Proof>::num_vars, (proof,), v),
        call_ensures(prover::verify_memory_consistency::<S>, (&backend.system, proof), verdict)
            || call_ensures(ZincPlusBackend::<S>::verify, (backend, proof), verdict),
        3 <= v <= 16,
    ensures
        call_ensures(
            S::verify,
            (
                &backend.system,
                &(CommitmentSizes {
                        poly_size: pow2(v as nat) as usize,
                        folded_poly_size: (4 * pow2(v as nat)) as usize,
                    }),
                &proof.inner(),
                &handed.0,
                v,
            ),
            handed.1,
        ),
        handed.0.binary_poly@.len() == 0,
        handed.0.int@.len() == 1 + v,
        forall|c: int| 0 <= c <= v ==> (#[trigger] handed.0.int@[c])@.len() == pow2(v as nat),
        forall|i: int|
            0 <= i < pow2(v as nat) ==> #[trigger] handed.0.int@[0]@[i] == if i == 0 {
                1i64
            } else {
                0
            },
        forall|k: int, i: int|
            0 <= k < v && 0 <= i < pow2(v as nat) ==> #[trigger] handed.0.int@[1 + k]@[i] == if (i
                / pow2(k as nat) as int) % 2 == 0 {
                1i64
            } else {
                0
            },
        match handed.1 {
            Ok(()) => verdict is Ok,
            Err(msg) => verdict == Err::<(), ZincMemoryError>(ZincMemoryError::Verifier(msg)),
        },
{
    lemma_sizes(v as int);
    let (t, outcome) = choose|t: UairTrace, outcome: Result<(), String>| #[trigger]
        prover::verdict_on_proof(&backend.system, proof, t, outcome, verdict);
    assert forall|i: int| 0 <= i < pow2(v as nat) implies #[trigger] t.int@[0]@[i] == if i == 0 {
        1i64
    } else {
        0
    } by {
        assert(t.cell(0, i) == trace::public_cell(0, i));
    }
    assert forall|k: int, i: int|
        0 <= k < v && 0 <= i < pow2(v as nat) implies #[trigger] t.int@[1 + k]@[i] == if (i / pow2(
        k as nat,
    ) as int) % 2 == 0 {
        1i64
    } else {
        0
    } by {
        assert(t.cell(1 + k, i) == trace::public_cell(1 + k, i));
        benes::upper_wires_have_a_clear_stride_bit(i, k as nat);
    }
    (t, outcome)
}

/// The verifier is handed as many columns as the constraint system declares
/// public.
pub proof fn verifiers_are_handed_all_public_columns<S: ProofSystem, const V: usize>(
    backend: &ZincPlusBackend<S>,
    proof: &ZincMemoryProof<S::Proof>,
    signature: UairSignature,
    verdict: Result<(), ZincMemoryError>,
) -> (handed: (UairTrace, Result<(), String>))
    requires
        call_ensures(ZincMemoryProof::<S::Proof>::num_vars, (proof,), V),
        call_ensures(prover::verify_memory_consistency::<S>, (&backend.system, proof), verdict)
            || call_ensures(ZincPlusBackend::<S>::verify, (backend, proof), verdict),
        call_ensures(MemoryConsistencyUair::<V>::signature, (), signature),
        3 <= V <= 16,
    ensures
        call_ensures(
            S::verify,
            (
                &backend.system,
                &(CommitmentSizes {
                        poly_size: pow2(V as nat) as usize,
                        folded_poly_size: (4 * pow2(V as nat)) as usize,
                    }),
                &proof.inner(),
                &handed.0,
                V,
            ),
            handed.1,
        ),
        handed.0.int@.len() == signature.public().int,
        handed.0.binary_poly@.len() == signature.public().binary_poly,
        verdict is Ok <==> handed.1 is Ok,
{
    verifiers_are_handed_the_public_columns(backend, proof, V, verdict)
}

/// A proof of any other exponent is refused as malformed, whatever the proof
/// system does, with a text that gives the exponent.
pub proof fn other_exponents_are_refused<S: ProofSystem>(
    backend: &ZincPlusBackend<S>,
    proof: &ZincMemoryProof<S::Proof>,
    v: usize,
    written: String,
    verdict: Result<(), ZincMemoryError>,
)
    requires
        call_ensures(ZincMemoryProof::<S::Proof>::num_vars, (proof,), v),
        call_ensures(prover::verify_memory_consistency::<S>, (&backend.system, proof), verdict)
            || call_ensures(ZincPlusBackend::<S>::verify, (backend, proof), verdict),
        v < 3 || v > 16,
        call_ensures(error::decimal, (v as u64,), written),
    ensures
        verdict matches Err(ZincMemoryError::MalformedProof(msg)) && msg@ == "num_vars "@ + written@
            + " outside [3, 16]"@,
{
}

/// The proof system's prover is handed the table that is built for the trace,
/// cell for cell, with the sizes `2^v` and `4 * 2^v`; its outcome is the result.
/// What the table cannot be built for is refused for the same reason.
pub proof fn provers_are_handed_the_table<S: ProofSystem>(
    backend: &ZincPlusBackend<S>,
    records: &[TraceRecord],
    built: Result<(UairTrace, usize), ZincMemoryError>,
    out: Result<ZincMemoryProof<S::Proof>, ZincMemoryError>,
) -> (handed: (UairTrace, Result<S::Proof, String>))
    requires
        call_ensures(witness::build_uair_trace, (records,), built),
        call_ensures(prover::prove_memory_consistency::<S>, (&backend.system, records), out)
            || call_ensures(ZincPlusBackend::<S>::prove, (backend, records), out),
    ensures
        match built {
            Err(e) => out == Err::<ZincMemoryProof<S::Proof>, ZincMemoryError>(e),
            Ok((t, v)) => {
                &&& call_ensures(
                    S::prove,
                    (
                        &backend.system,
                        &(CommitmentSizes {
                        poly_size: pow2(v as nat) as usize,
                        folded_poly_size: (4 * pow2(v as nat)) as usize,
                    }),
                        &handed.0,
                        v,
                    ),
                    handed.1,
                )
                &&& handed.0.binary_poly@.len() == t.binary_poly@.len()
                &&& handed.0.int@.len() == t.int@.len()
                &&& forall|c: int|
                    0 <= c < t.binary_poly@.len() ==> (#[trigger] handed.0.binary_poly@[c])@
                        == t.binary_poly@[c]@
                &&& forall|c: int|
                    0 <= c < t.int@.len() ==> (#[trigger] handed.0.int@[c])@ == t.int@[c]@
                &&& match handed.1 {
                    Ok(proof) => out matches Ok(p) && p.inner() == proof && forall|w: usize|
                        #[trigger] call_ensures(
                            ZincMemoryProof::<S::Proof>::num_vars,
                            (&p,),
                            w,
                        ) ==> w == v,
                    Err(msg) => out == Err::<ZincMemoryProof<S::Proof>, ZincMemoryError>(
                        ZincMemoryError::Prover(msg),
                    ),
                }
            },
        },
{
    let o = machine::accesses(records@);
    if built is Err {
        arbitrary()
    } else {
        let t = built->Ok_0.0;
        let v = built->Ok_0.1;
        witness::lemma_accepted(o);
        lemma_sizes(v as int);
        let (handed, outcome) = choose|handed: UairTrace, outcome: Result<S::Proof, String>|
            #[trigger] prover::proof_of_trace(&backend.system, o, handed, outcome, out);
        unique::witnesses_are_unique(handed, t, v as int, o);
        tables::lemma_same_columns(handed, t, v as int);
        (handed, outcome)
    }
}

/// A table of the caller's own is handed to the prover as it is.
pub proof fn provers_are_handed_a_given_table<S: ProofSystem>(
    system: &S,
    t: &UairTrace,
    v: usize,
    out: Result<ZincMemoryProof<S::Proof>, ZincMemoryError>,
) -> (outcome: Result<S::Proof, String>)
    requires
        call_ensures(prover::prove_from_uair_trace::<S>, (system, t, v), out),
    ensures
        call_ensures(
            S::prove,
            (
                system,
                &(CommitmentSizes {
                        poly_size: pow2(v as nat) as usize,
                        folded_poly_size: (4 * pow2(v as nat)) as usize,
                    }),
                t,
                v,
            ),
            outcome,
        ),
        match outcome {
            Ok(proof) => out matches Ok(p) && p.inner() == proof && forall|w: usize| #[trigger]
                call_ensures(ZincMemoryProof::<S::Proof>::num_vars, (&p,), w) ==> w == v,
            Err(msg) => out == Err::<ZincMemoryProof<S::Proof>, ZincMemoryError>(
                ZincMemoryError::Prover(msg),
            ),
        },
{
    lemma_sizes(v as int);
    choose|outcome: Result<S::Proof, String>|
        call_ensures(S::prove, (system, &types::sizes_for(v as int), t, v), outcome)
            && #[trigger] prover::as_proved(out, outcome, v as int)
}

/// A trace of fewer than `2^16` records that starts at time zero, whose times
/// increase and leave room for `2^16` padding rows, reaches the prover: where it
/// is not proved, the prover said so.
pub proof fn ordered_traces_reach_the_prover<S: ProofSystem>(
    backend: &ZincPlusBackend<S>,
    records: &[TraceRecord],
    out: Result<ZincMemoryProof<S::Proof>, ZincMemoryError>,
)
    requires
        call_ensures(prover::prove_memory_consistency::<S>, (&backend.system, records), out)
            || call_ensures(ZincPlusBackend::<S>::prove, (backend, records), out),
        0 < records@.len() < 0x1_0000,
        records@[0]@.time == 0,
        forall|i: int|
            0 <= i < records@.len() - 1 ==> (#[trigger] records@[i])@.time < records@[i + 1]@.time,
        records@.last()@.time <= u64::MAX - 0x1_0000,
    ensures
        out is Err ==> (out matches Err(ZincMemoryError::Prover(_))),
{
    lemma_reaches(records);
    let o = machine::accesses(records@);
    let (t, outcome) = choose|t: UairTrace, outcome: Result<S::Proof, String>| #[trigger]
        prover::proof_of_trace(&backend.system, o, t, outcome, out);
}

proof fn lemma_reaches(records: &[TraceRecord])
    requires
        0 < records@.len() < 0x1_0000,
        records@[0]@.time == 0,
        forall|i: int|
            0 <= i < records@.len() - 1 ==> (#[trigger] records@[i])@.time < records@[i + 1]@.time,
        records@.last()@.time <= u64::MAX - 0x1_0000,
    ensures
        witness::input_rejection(machine::accesses(records@)) is None,
        consistency::time_ordered(machine::accesses(records@)),
{
    let o = machine::accesses(records@);
    lemma2_to64();
    tables::lemma_ordered(records@);
    assert(o.last() == records@.last()@);
    assert(o[0] == records@[0]@);
    witness::row_counts_are_minimal(records@.len() as int);
    let v = witness::exponent_for(records@.len() as int);
    if v < 16 {
        lemma_pow2_strictly_increases(v as nat, 16);
    }
    assert(witness::rejection(o) is None);
    witness::lemma_accepted(o);
}

/// With a prover that succeeds on exactly the satisfying tables, such a trace is
/// proved exactly when every read returns the last value written to its address.
pub proof fn exact_provers_prove_exactly_the_consistent_traces<S: ProofSystem>(
    backend: &ZincPlusBackend<S>,
    records: &[TraceRecord],
    out: Result<ZincMemoryProof<S::Proof>, ZincMemoryError>,
)
    requires
        prover::proves_exactly(&backend.system),
        call_ensures(prover::prove_memory_consistency::<S>, (&backend.system, records), out)
            || call_ensures(ZincPlusBackend::<S>::prove, (backend, records), out),
        0 < records@.len() < 0x1_0000,
        records@[0]@.time == 0,
        forall|i: int|
            0 <= i < records@.len() - 1 ==> (#[trigger] records@[i])@.time < records@[i + 1]@.time,
        records@.last()@.time <= u64::MAX - 0x1_0000,
    ensures
        out is Ok <==> (forall|i: int|
            0 <= i < records@.len() && !(#[trigger] records@[i])@.write ==> exists|j: int|
                {
                    &&& 0 <= j < i
                    &&& (#[trigger] records@[j])@.write
                    &&& records@[j]@.address == records@[i]@.address
                    &&& records@[j]@.value == records@[i]@.value
                    &&& forall|k: int|
                        j < k < i && (#[trigger] records@[k])@.address == records@[i]@.address
                            ==> !records@[k]@.write
                }),
{
    lemma_reaches(records);
    let o = machine::accesses(records@);
    let (t, outcome) = choose|t: UairTrace, outcome: Result<S::Proof, String>| #[trigger]
        prover::proof_of_trace(&backend.system, o, t, outcome, out);
    prover::consistent_traces_are_proved(&backend.system, o, t, outcome, out);
    lemma_consistent(records@);
}

/// What it means, of the records, that every read returns the last value written.
pub proof fn lemma_consistent(records: Seq<TraceRecord>)
    ensures
        consistency::memory_consistent(machine::accesses(records)) <==> (forall|i: int|
            0 <= i < records.len() && !(#[trigger] records[i])@.write ==> exists|j: int|
                {
                    &&& 0 <= j < i
                    &&& (#[trigger] records[j])@.write
                    &&& records[j]@.address == records[i]@.address
                    &&& records[j]@.value == records[i]@.value
                    &&& forall|k: int|
                        j < k < i && (#[trigger] records[k])@.address == records[i]@.address
                            ==> !records[k]@.write
                }),
{
    let o = machine::accesses(records);
    if consistency::memory_consistent(o) {
        assert forall|i: int| 0 <= i < records.len() && !(#[trigger] records[i])@.write implies exists|
            j: int,
        |
            {
                &&& 0 <= j < i
                &&& (#[trigger] records[j])@.write
                &&& records[j]@.address == records[i]@.address
                &&& records[j]@.value == records[i]@.value
                &&& forall|k: int|
                    j < k < i && (#[trigger] records[k])@.address == records[i]@.address
                        ==> !records[k]@.write
            } by {
            assert(consistency::explained(o, i));
            let j = choose|j: int| #[trigger]
                consistency::last_write(o, j, i) && o[j].value == o[i].value;
            assert(records[j]@ == o[j] && records[i]@ == o[i]);
            assert forall|k: int|
                j < k < i && (#[trigger] records[k])@.address == records[i]@.address implies !records[k]@.write by {
                assert(o[k] == records[k]@);
            }
        }
    }
    if (forall|i: int|
            0 <= i < records.len() && !(#[trigger] records[i])@.write ==> exists|j: int|
                {
                    &&& 0 <= j < i
                    &&& (#[trigger] records[j])@.write
                    &&& records[j]@.address == records[i]@.address
                    &&& records[j]@.value == records[i]@.value
                    &&& forall|k: int|
                        j < k < i && (#[trigger] records[k])@.address == records[i]@.address
                            ==> !records[k]@.write
                }) {
        assert forall|i: int| 0 <= i < o.len() implies #[trigger] consistency::explained(o, i) by {
            if !o[i].write {
                assert(!records[i]@.write);
                let j = choose|j: int|
                    {
                        &&& 0 <= j < i
                        &&& (#[trigger] records[j])@.write
                        &&& records[j]@.address == records[i]@.address
                        &&& records[j]@.value == records[i]@.value
                        &&& forall|k: int|
                            j < k < i && (#[trigger] records[k])@.address == records[i]@.address
                                ==> !records[k]@.write
                    };
                assert(o[j] == records[j]@ && o[i] == records[i]@);
                assert forall|k: int|
                    j < k < i && (#[trigger] o[k]).address == o[i].address implies !o[k].write by {
                    assert(records[k]@ == o[k]);
                }
                assert(consistency::last_write(o, j, i));
            }
        }
    }
}

/// Where the proof system writes a proof of a supported exponent, it is
/// serialized: a byte with the exponent, three zero bytes, and what the proof
/// system wrote, whatever its length. Where it does not, its text is the error.
pub proof fn written_proofs_are_serialized<S: ProofSystem>(
    system: &S,
    proof: &ZincMemoryProof<S::Proof>,
    v: usize,
    out: Result<Vec<u8>, ZincMemoryError>,
) -> (outcome: Result<Vec<u8>, String>)
    requires
        call_ensures(ZincMemoryProof::<S::Proof>::num_vars, (proof,), v),
        call_ensures(ZincMemoryProof::<S::Proof>::to_bytes::<S>, (proof, system), out),
        3 <= v <= 16,
    ensures
        call_ensures(S::write, (system, &proof.inner()), outcome),
        match outcome {
            Ok(body) => {
                &&& out is Ok
                &&& out->Ok_0@.len() == 4 + body@.len()
                &&& out->Ok_0@[0] == v
                &&& out->Ok_0@[1] == 0
                &&& out->Ok_0@[2] == 0
                &&& out->Ok_0@[3] == 0
                &&& forall|i: int| 0 <= i < body@.len() ==> out->Ok_0@[4 + i] == #[trigger] body@[i]
            },
            Err(msg) => out == Err::<Vec<u8>, ZincMemoryError>(
                ZincMemoryError::MalformedProof(msg),
            ),
        },
{
    choose|outcome: Result<Vec<u8>, String>|
        call_ensures(S::write, (system, &proof.inner()), outcome) && #[trigger] prover::as_written(
            out,
            outcome,
            v as int,
        )
}

/// Every proof that is written is serialized, whatever its exponent, as long as
/// that fits 32 bits: then the first four bytes are its digits in base `256`,
/// least significant first. One that does not fit is refused.
pub proof fn writers_outcomes_are_framed(
    given: Result<Vec<u8>, String>,
    v: usize,
    out: Result<Vec<u8>, ZincMemoryError>,
)
    requires
        call_ensures(prover::written, (given, v), out),
    ensures
        match given {
            Ok(body) => if v <= 0xffff_ffff {
                &&& out is Ok
                &&& out->Ok_0@.len() == 4 + body@.len()
                &&& v == out->Ok_0@[0] + 0x100 * out->Ok_0@[1] + 0x1_0000 * out->Ok_0@[2]
                    + 0x100_0000 * out->Ok_0@[3]
                &&& forall|i: int| 0 <= i < body@.len() ==> out->Ok_0@[4 + i] == #[trigger] body@[i]
            } else {
                out matches Err(ZincMemoryError::MalformedProof(msg)) && msg@
                    == "num_vars overflow"@
            },
            Err(msg) => out == Err::<Vec<u8>, ZincMemoryError>(
                ZincMemoryError::MalformedProof(msg),
            ),
        },
{
}

/// The exponent of serialized bytes is the number that the first four write,
/// least significant first. Fewer bytes, and numbers from `0` to `2` and above
/// `16`, are refused as malformed.
pub proof fn declared_exponents_are_the_first_bytes(
    bytes: &[u8],
    written: String,
    out: Result<usize, ZincMemoryError>,
)
    requires
        call_ensures(prover::declared_num_vars, (bytes,), out),
        bytes@.len() >= 4 ==> call_ensures(
            error::decimal,
            ((bytes@[0] + 0x100 * bytes@[1] + 0x1_0000 * bytes@[2] + 0x100_0000 * bytes@[3]) as u64,),
            written,
        ),
    ensures
        if bytes@.len() < 4 {
            out matches Err(ZincMemoryError::MalformedProof(msg)) && msg@ == "buffer too short"@
        } else {
            let n = bytes@[0] + 0x100 * bytes@[1] + 0x1_0000 * bytes@[2] + 0x100_0000 * bytes@[3];
            if 3 <= n <= 16 {
                out matches Ok(v) && v == n
            } else {
                out matches Err(ZincMemoryError::MalformedProof(msg)) && msg@ == "num_vars "@
                    + written@ + " outside [3, 16]"@
            }
        },
{
}

/// Bytes that begin with a supported exponent are handed to the proof system's
/// reader without their first four; its outcome is the proof, with that exponent.
/// All others are refused as they are by the exponent's reader.
pub proof fn readers_are_handed_the_rest<'a, S: ProofSystem>(
    system: &S,
    bytes: &'a [u8],
    declared: Result<usize, ZincMemoryError>,
    out: Result<ZincMemoryProof<S::Proof>, ZincMemoryError>,
) -> (handed: (&'a [u8], Result<S::Proof, String>))
    requires
        call_ensures(prover::declared_num_vars, (bytes,), declared),
        call_ensures(ZincMemoryProof::<S::Proof>::from_bytes::<S>, (system, bytes), out),
    ensures
        match declared {
            Err(ZincMemoryError::MalformedProof(text)) => out matches Err(
                ZincMemoryError::MalformedProof(msg),
            ) && msg@ == text@,
            Err(_) => false,
            Ok(v) => {
                &&& call_ensures(S::read, (system, handed.0), handed.1)
                &&& handed.0@.len() == bytes@.len() - 4
                &&& forall|i: int|
                    0 <= i < handed.0@.len() ==> #[trigger] handed.0@[i] == bytes@[4 + i]
                &&& match handed.1 {
                    Ok(proof) => out matches Ok(p) && p.inner() == proof && forall|w: usize|
                        #[trigger] call_ensures(
                            ZincMemoryProof::<S::Proof>::num_vars,
                            (&p,),
                            w,
                        ) ==> w == v,
                    Err(msg) => out == Err::<ZincMemoryProof<S::Proof>, ZincMemoryError>(
                        ZincMemoryError::MalformedProof(msg),
                    ),
                }
            },
        },
{
    if declared is Ok {
        choose|body: &[u8], outcome: Result<S::Proof, String>|
            body@ == prover::frame_body(bytes@) && #[trigger] call_ensures(
                S::read,
                (system, body),
                outcome,
            ) && prover::as_read(out, outcome, prover::frame_exponent(bytes@))
    } else {
        arbitrary()
    }
}

/// Tables of every supported exponent are taken, with commitments to `2^v`
/// evaluations and, folded, to four times as many.
pub proof fn supported_exponents_are_taken<S: ProofSystem>(
    system: &S,
    t: &UairTrace,
    v: usize,
    sizes: CommitmentSizes,
)
    requires
        3 <= v <= 16,
        call_ensures(types::setup_params, (v,), sizes),
    ensures
        call_requires(prover::prove_from_uair_trace::<S>, (system, t, v)),
        call_requires(types::setup_params, (v,)),
        sizes.poly_size == pow2(v as nat),
        sizes.folded_poly_size == 4 * pow2(v as nat),
{
}

} // verus!
