//! Proving and verifying memory consistency.
//!
//! A proof system is plugged in through [`ProofSystem`]. The functions here
//! decide what it is handed and what its outcomes mean.

use crate::consistency;
use crate::machine;
use crate::machine::TraceRecord;
use crate::zincplus::error;
use crate::zincplus::error::ZincMemoryError;
use crate::zincplus::layout;
use crate::zincplus::layout::{MAX_NUM_VARS, MIN_NUM_VARS};
use crate::zincplus::trace;
use crate::zincplus::trace::UairTrace;
use crate::zincplus::types;
use crate::zincplus::types::CommitmentSizes;
use crate::zincplus::witness;
use vstd::arithmetic::power2::*;
use vstd::prelude::*;

verus! {

/// A proof system for the memory-consistency constraint system. Nothing is
/// assumed of it: a caller learns from its outcomes alone.
pub trait ProofSystem {
    /// The proof that it produces.
    type Proof;

    /// Prove that a trace of `2^num_vars` rows satisfies the system.
    fn prove(&self, sizes: &CommitmentSizes, trace: &UairTrace, num_vars: usize) -> Result<
        Self::Proof,
        String,
    >;

    /// Verify a proof against the public columns of a trace of `2^num_vars`
    /// rows.
    fn verify(
        &self,
        sizes: &CommitmentSizes,
        proof: &Self::Proof,
        public_trace: &UairTrace,
        num_vars: usize,
    ) -> Result<(), String>;

    /// Write a proof as bytes.
    fn write(&self, proof: &Self::Proof) -> Result<Vec<u8>, String>;

    /// Read a proof from bytes.
    fn read(&self, bytes: &[u8]) -> Result<Self::Proof, String>;
}

/// A memory-consistency proof: what the proof system produced, with the
/// exponent of the row count that it was produced for.
#[derive(Debug, Clone, PartialEq, Eq)]
pub struct ZincMemoryProof<P> {
    proof: P,
    num_vars: usize,
}

impl<P> ZincMemoryProof<P> {
    /// What the proof system produced.
    pub closed spec fn inner(&self) -> P {
        self.proof
    }

    /// The exponent of the row count.
    pub closed spec fn exponent(&self) -> int {
        self.num_vars as int
    }

    /// The exponent of the row count that the proof covers.
    pub fn num_vars(&self) -> (v: usize)
        ensures
            v == self.exponent(),
    {
        self.num_vars
    }
}

/// The proof for a prover's outcome.
pub fn proved<P>(outcome: Result<P, String>, num_vars: usize) -> (out: Result<
    ZincMemoryProof<P>,
    ZincMemoryError,
>)
    ensures
        match outcome {
            Ok(proof) => out matches Ok(p) && p.inner() == proof && p.exponent() == num_vars,
            Err(msg) => out == Err::<ZincMemoryProof<P>, ZincMemoryError>(
                ZincMemoryError::Prover(msg),
            ),
        },
{
    match outcome {
        Ok(proof) => Ok(ZincMemoryProof { proof, num_vars }),
        Err(msg) => Err(ZincMemoryError::Prover(msg)),
    }
}

/// The verdict for a verifier's outcome.
pub fn verified(outcome: Result<(), String>) -> (out: Result<(), ZincMemoryError>)
    ensures
        match outcome {
            Ok(()) => out is Ok,
            Err(msg) => out == Err::<(), ZincMemoryError>(ZincMemoryError::Verifier(msg)),
        },
{
    match outcome {
        Ok(()) => Ok(()),
        Err(msg) => Err(ZincMemoryError::Verifier(msg)),
    }
}

/// The proof is as a prover's outcome on a trace says.
pub open spec fn as_proved<P>(
    out: Result<ZincMemoryProof<P>, ZincMemoryError>,
    outcome: Result<P, String>,
    v: int,
) -> bool {
    match outcome {
        Ok(proof) => out matches Ok(p) && p.inner() == proof && p.exponent() == v,
        Err(msg) => out == Err::<ZincMemoryProof<P>, ZincMemoryError>(ZincMemoryError::Prover(msg)),
    }
}

/// Prove that a trace of `2^num_vars` rows satisfies the constraint system.
pub fn prove_from_uair_trace<S: ProofSystem>(
    system: &S,
    uair_trace: &UairTrace,
    num_vars: usize,
) -> (out: Result<ZincMemoryProof<S::Proof>, ZincMemoryError>)
    requires
        layout::supported(num_vars as int),
    ensures
        exists|outcome: Result<S::Proof, String>|
            call_ensures(
                S::prove,
                (system, &types::sizes_for(num_vars as int), uair_trace, num_vars),
                outcome,
            ) && #[trigger] as_proved(out, outcome, num_vars as int),
{
    let sizes = types::setup_params(num_vars);
    let outcome = system.prove(&sizes, uair_trace, num_vars);
    let ghost seen = outcome;
    let out = proved(outcome, num_vars);
    assert(as_proved(out, seen, num_vars as int));
    out
}

/// The proof of an execution trace `o` is what the system's prover makes of a
/// trace of the constraint system for `o`, which satisfies it exactly when `o`
/// accesses memory consistently.
pub open spec fn proof_of_trace<S: ProofSystem>(
    system: &S,
    o: Seq<machine::Access>,
    t: UairTrace,
    outcome: Result<S::Proof, String>,
    out: Result<ZincMemoryProof<S::Proof>, ZincMemoryError>,
) -> bool {
    let v = witness::exponent_for(o.len() as int);
    &&& witness::witnesses(t, v, o)
    &&& trace::satisfied(t, v) <==> consistency::statement(o)
    &&& call_ensures(S::prove, (system, &types::sizes_for(v), &t, v as usize), outcome)
    &&& as_proved(out, outcome, v)
}

/// Prove that an execution trace accesses memory consistently. The trace is
/// given in execution order, from time zero on; sorting, limb decomposition
/// and padding happen here. An inconsistent trace gives a witness that does
/// not satisfy the constraints, which is for the prover to refuse.
pub fn prove_memory_consistency<S: ProofSystem>(
    system: &S,
    records: &[TraceRecord],
) -> (out: Result<ZincMemoryProof<S::Proof>, ZincMemoryError>)
    ensures
        match witness::input_rejection(machine::accesses(records@)) {
            Some(e) => out == Err::<ZincMemoryProof<S::Proof>, ZincMemoryError>(e),
            None => exists|t: UairTrace, outcome: Result<S::Proof, String>| #[trigger]
                proof_of_trace(system, machine::accesses(records@), t, outcome, out),
        },
{
    let ghost o = machine::accesses(records@);
    match witness::build_uair_trace(records) {
        Err(e) => Err(e),
        Ok((t, num_vars)) => {
            proof {
                witness::lemma_accepted(o);
                let order = choose|order: Seq<usize>| #[trigger]
                    witness::sorts(order, o) && witness::is_witness(t, num_vars as int, o, order);
                witness::witnesses_satisfy_exactly_the_consistent_traces(
                    t,
                    num_vars as int,
                    o,
                    order,
                );
            }
            let out = prove_from_uair_trace(system, &t, num_vars);
            proof {
                let outcome = choose|outcome: Result<S::Proof, String>|
                    call_ensures(
                        S::prove,
                        (system, &types::sizes_for(num_vars as int), &t, num_vars),
                        outcome,
                    ) && #[trigger] as_proved(out, outcome, num_vars as int);
                assert(proof_of_trace(system, o, t, outcome, out));
            }
            out
        },
    }
}

/// The public columns of a trace of `2^v` rows, and nothing else.
pub open spec fn is_public_trace(t: UairTrace, v: int) -> bool {
    &&& t.binary_poly@.len() == 0
    &&& t.int@.len() == 1 + v
    &&& forall|c: int| 0 <= c <= v ==> (#[trigger] t.int@[c])@.len() == pow2(v as nat)
    &&& trace::public_as_fixed(t, v)
}

/// A verification handed the proof and the fixed public columns to the
/// system's verifier, and its outcome is the verdict.
pub open spec fn verdict_on_proof<S: ProofSystem>(
    system: &S,
    proof: &ZincMemoryProof<S::Proof>,
    public_trace: UairTrace,
    outcome: Result<(), String>,
    out: Result<(), ZincMemoryError>,
) -> bool {
    let v = proof.exponent();
    &&& is_public_trace(public_trace, v)
    &&& call_ensures(
        S::verify,
        (system, &types::sizes_for(v), &proof.inner(), &public_trace, v as usize),
        outcome,
    )
    &&& match outcome {
        Ok(()) => out is Ok,
        Err(msg) => out == Err::<(), ZincMemoryError>(ZincMemoryError::Verifier(msg)),
    }
}

/// A refusal of a proof whose row count exponent is not supported.
pub open spec fn refuses_exponent<T>(out: Result<T, ZincMemoryError>, v: int) -> bool {
    out matches Err(ZincMemoryError::MalformedProof(msg)) && msg@ == error::num_vars_text(v as nat)
}

/// Verify a memory-consistency proof. The commitment sizes and the public
/// columns are derived here, so a proof is accepted for these alone.
pub fn verify_memory_consistency<S: ProofSystem>(
    system: &S,
    proof: &ZincMemoryProof<S::Proof>,
) -> (out: Result<(), ZincMemoryError>)
    ensures
        !layout::supported(proof.exponent()) ==> refuses_exponent(out, proof.exponent()),
        layout::supported(proof.exponent()) ==> exists|
            public_trace: UairTrace,
            outcome: Result<(), String>,
        | #[trigger] verdict_on_proof(system, proof, public_trace, outcome, out),
{
    let num_vars: usize = proof.num_vars;
    if num_vars < MIN_NUM_VARS || num_vars > MAX_NUM_VARS {
        return Err(ZincMemoryError::MalformedProof(error::num_vars_message(num_vars as u64)));
    }
    let sizes = types::setup_params(num_vars);
    let public_trace = UairTrace {
        binary_poly: Vec::new(),
        int: witness::public_int_columns(num_vars),
    };
    assert(is_public_trace(public_trace, num_vars as int)) by {
        assert forall|c: int, i: int|
            0 <= c <= num_vars && 0 <= i < pow2(num_vars as nat) implies #[trigger] public_trace.cell(
            c,
            i,
        ) == trace::public_cell(c, i) by {
            assert(public_trace.int@[c]@[i] == trace::public_cell(c, i));
        }
    }
    let outcome = system.verify(&sizes, &proof.proof, &public_trace, num_vars);
    let ghost seen = outcome;
    let out = verified(outcome);
    assert(verdict_on_proof(system, proof, public_trace, seen, out));
    out
}

// ---------------------------------------------------------------------------
// Proofs as bytes.
// ---------------------------------------------------------------------------

/// The four little-endian bytes of a 32-bit number.
pub open spec fn le_bytes(n: int) -> Seq<u8> {
    seq![
        (n % 0x100) as u8,
        (n / 0x100 % 0x100) as u8,
        (n / 0x1_0000 % 0x100) as u8,
        (n / 0x100_0000 % 0x100) as u8,
    ]
}

/// A serialized proof: the exponent of the row count as four little-endian
/// bytes, then the proof system's bytes.
pub open spec fn frame(v: int, body: Seq<u8>) -> Seq<u8> {
    le_bytes(v) + body
}

/// The exponent that a serialized proof declares.
pub open spec fn frame_exponent(bytes: Seq<u8>) -> int {
    bytes[0] + bytes[1] * 0x100 + bytes[2] * 0x1_0000 + bytes[3] * 0x100_0000
}

/// The proof system's part of a serialized proof.
pub open spec fn frame_body(bytes: Seq<u8>) -> Seq<u8> {
    bytes.skip(4)
}

/// What is read from a serialized proof is what was written to it.
pub proof fn frames_are_read_back(v: int, body: Seq<u8>)
    requires
        0 <= v <= u32::MAX,
    ensures
        frame(v, body).len() == 4 + body.len(),
        frame_exponent(frame(v, body)) == v,
        frame_body(frame(v, body)) == body,
{
    assert(frame_body(frame(v, body)) =~= body);
}

/// A serialized proof is determined by what is read from it.
pub proof fn frames_are_canonical(bytes: Seq<u8>)
    requires
        bytes.len() >= 4,
    ensures
        0 <= frame_exponent(bytes) <= u32::MAX,
        frame(frame_exponent(bytes), frame_body(bytes)) == bytes,
{
    let (a, b, c, d) = (bytes[0] as int, bytes[1] as int, bytes[2] as int, bytes[3] as int);
    let n = frame_exponent(bytes);
    assert(n % 0x100 == a && n / 0x100 == b + c * 0x100 + d * 0x1_0000);
    assert(n / 0x100 % 0x100 == b);
    assert(n / 0x1_0000 == c + d * 0x100);
    assert(n / 0x1_0000 % 0x100 == c);
    assert(n / 0x100_0000 == d && d % 0x100 == d);
    let framed = frame(n, frame_body(bytes));
    assert forall|i: int| 4 <= i < bytes.len() implies framed[i] == bytes[i] by {
        assert(frame_body(bytes)[i - 4] == bytes[i]);
    }
    assert(framed =~= bytes);
}

/// The result of serializing a proof on which the proof system's writer gave
/// `outcome`.
pub open spec fn as_written(
    out: Result<Vec<u8>, ZincMemoryError>,
    outcome: Result<Vec<u8>, String>,
    v: int,
) -> bool {
    match outcome {
        Err(msg) => out == Err::<Vec<u8>, ZincMemoryError>(ZincMemoryError::MalformedProof(msg)),
        Ok(body) => if v > u32::MAX {
            out matches Err(ZincMemoryError::MalformedProof(msg)) && msg@ == "num_vars overflow"@
        } else {
            out matches Ok(bytes) && bytes@ == frame(v, body@)
        },
    }
}

/// The result of reading a proof from bytes whose body the proof system's
/// reader took with `outcome`.
pub open spec fn as_read<P>(
    out: Result<ZincMemoryProof<P>, ZincMemoryError>,
    outcome: Result<P, String>,
    v: int,
) -> bool {
    match outcome {
        Err(msg) => out == Err::<ZincMemoryProof<P>, ZincMemoryError>(
            ZincMemoryError::MalformedProof(msg),
        ),
        Ok(proof) => out matches Ok(p) && p.inner() == proof && p.exponent() == v,
    }
}

/// The bytes of a proof, from what the proof system's writer gave.
pub fn written(outcome: Result<Vec<u8>, String>, num_vars: usize) -> (out: Result<
    Vec<u8>,
    ZincMemoryError,
>)
    ensures
        as_written(out, outcome, num_vars as int),
{
    match outcome {
        Err(msg) => Err(ZincMemoryError::MalformedProof(msg)),
        Ok(body) => {
            if num_vars as u64 > u32::MAX as u64 {
                return Err(
                    ZincMemoryError::MalformedProof(String::from_str("num_vars overflow")),
                );
            }
            let n: u32 = num_vars as u32;
            let mut bytes: Vec<u8> = Vec::new();
            bytes.push((n % 0x100) as u8);
            bytes.push((n / 0x100 % 0x100) as u8);
            bytes.push((n / 0x1_0000 % 0x100) as u8);
            bytes.push((n / 0x100_0000 % 0x100) as u8);
            let mut rest = body;
            bytes.append(&mut rest);
            assert(bytes@ =~= frame(num_vars as int, body@));
            Ok(bytes)
        },
    }
}

/// The row count exponent that a serialized proof declares.
pub fn declared_num_vars(bytes: &[u8]) -> (out: Result<usize, ZincMemoryError>)
    ensures
        bytes@.len() < 4 ==> (out matches Err(ZincMemoryError::MalformedProof(msg)) && msg@
            == "buffer too short"@),
        bytes@.len() >= 4 && !layout::supported(frame_exponent(bytes@)) ==> refuses_exponent(
            out,
            frame_exponent(bytes@),
        ),
        bytes@.len() >= 4 && layout::supported(frame_exponent(bytes@)) ==> (out matches Ok(v) && v
            == frame_exponent(bytes@)),
{
    if bytes.len() < 4 {
        return Err(ZincMemoryError::MalformedProof(String::from_str("buffer too short")));
    }
    let n: u32 = bytes[0] as u32 + bytes[1] as u32 * 0x100 + bytes[2] as u32 * 0x1_0000
        + bytes[3] as u32 * 0x100_0000;
    if n < MIN_NUM_VARS as u32 || n > MAX_NUM_VARS as u32 {
        return Err(ZincMemoryError::MalformedProof(error::num_vars_message(n as u64)));
    }
    Ok(n as usize)
}

impl<P> ZincMemoryProof<P> {
    /// Serialize the proof: the exponent of the row count as a little-endian
    /// 32-bit number, then the proof system's bytes.
    pub fn to_bytes<S: ProofSystem<Proof = P>>(&self, system: &S) -> (out: Result<
        Vec<u8>,
        ZincMemoryError,
    >)
        ensures
            exists|outcome: Result<Vec<u8>, String>|
                call_ensures(S::write, (system, &self.inner()), outcome) && #[trigger] as_written(
                    out,
                    outcome,
                    self.exponent(),
                ),
    {
        let outcome = system.write(&self.proof);
        let ghost seen = outcome;
        let out = written(outcome, self.num_vars);
        assert(as_written(out, seen, self.exponent()));
        out
    }

    /// Read a serialized proof. What does not declare a supported row count
    /// is refused before the proof system sees it.
    pub fn from_bytes<S: ProofSystem<Proof = P>>(system: &S, bytes: &[u8]) -> (out: Result<
        ZincMemoryProof<P>,
        ZincMemoryError,
    >)
        ensures
            bytes@.len() < 4 ==> (out matches Err(ZincMemoryError::MalformedProof(msg)) && msg@
                == "buffer too short"@),
            bytes@.len() >= 4 && !layout::supported(frame_exponent(bytes@)) ==> refuses_exponent(
                out,
                frame_exponent(bytes@),
            ),
            bytes@.len() >= 4 && layout::supported(frame_exponent(bytes@)) ==> exists|
                body: &[u8],
                outcome: Result<P, String>,
            |
                body@ == frame_body(bytes@) && #[trigger] call_ensures(
                    S::read,
                    (system, body),
                    outcome,
                ) && as_read(out, outcome, frame_exponent(bytes@)),
    {
        let num_vars: usize = match declared_num_vars(bytes) {
            Ok(v) => v,
            Err(e) => {
                return Err(e);
            },
        };
        let body = vstd::slice::slice_subrange(bytes, 4, bytes.len());
        assert(body@ =~= frame_body(bytes@));
        let outcome = system.read(body);
        match outcome {
            Ok(proof) => Ok(ZincMemoryProof { proof, num_vars }),
            Err(msg) => Err(ZincMemoryError::MalformedProof(msg)),
        }
    }
}

// ---------------------------------------------------------------------------
// What follows where the proof system does what it is for.
// ---------------------------------------------------------------------------

/// The prover succeeds on exactly the satisfying traces.
pub open spec fn proves_exactly<S: ProofSystem>(system: &S) -> bool {
    forall|t: UairTrace, v: usize, outcome: Result<S::Proof, String>| #[trigger]
        call_ensures(S::prove, (system, &types::sizes_for(v as int), &t, v), outcome) ==> (
        outcome is Ok <==> trace::satisfied(t, v as int))
}

/// What the verifier accepts, `extract` takes to a trace that satisfies the
/// system and has the given public columns.
pub open spec fn verifies_soundly<S: ProofSystem>(
    system: &S,
    extract: spec_fn(S::Proof) -> UairTrace,
) -> bool {
    forall|proof: S::Proof, public_trace: UairTrace, v: usize|
        layout::supported(v as int) && is_public_trace(public_trace, v as int)
            && #[trigger] call_ensures(
            S::verify,
            (system, &types::sizes_for(v as int), &proof, &public_trace, v),
            Ok(()),
        ) ==> trace::satisfied(extract(proof), v as int) && has_public_columns(
            extract(proof),
            public_trace,
        )
}

/// The leading integer columns of a trace are the given public ones.
pub open spec fn has_public_columns(t: UairTrace, public_trace: UairTrace) -> bool {
    &&& t.int@.len() >= public_trace.int@.len()
    &&& forall|c: int|
        0 <= c < public_trace.int@.len() ==> (#[trigger] t.int@[c])@ == public_trace.int@[c]@
}

/// The verifier accepts what the prover made of a trace with the public columns
/// that the verifier is given.
pub open spec fn accepts_own_proofs<S: ProofSystem>(system: &S) -> bool {
    forall|
        t: UairTrace,
        v: usize,
        proof: S::Proof,
        public_trace: UairTrace,
        verdict: Result<(), String>,
    |
        #[trigger] call_ensures(
            S::prove,
            (system, &types::sizes_for(v as int), &t, v),
            Ok(proof),
        ) && has_public_columns(t, public_trace) && is_public_trace(public_trace, v as int)
            && #[trigger] call_ensures(
            S::verify,
            (system, &types::sizes_for(v as int), &proof, &public_trace, v),
            verdict,
        ) ==> verdict is Ok
}

/// The reader gives back what the writer wrote.
pub open spec fn reads_back<S: ProofSystem>(system: &S) -> bool {
    forall|proof: S::Proof, body: Vec<u8>, bytes: &[u8], outcome: Result<S::Proof, String>|
        #[trigger] call_ensures(S::write, (system, &proof), Ok(body)) && bytes@ == body@
            && #[trigger] call_ensures(S::read, (system, bytes), outcome) ==> outcome == Ok::<
            S::Proof,
            String,
        >(proof)
}

/// With a prover that succeeds on exactly the satisfying traces, an accepted
/// trace is proved exactly when every read returns the last value written; an
/// inconsistent one is answered with the prover's error.
pub proof fn consistent_traces_are_proved<S: ProofSystem>(
    system: &S,
    o: Seq<machine::Access>,
    t: UairTrace,
    outcome: Result<S::Proof, String>,
    out: Result<ZincMemoryProof<S::Proof>, ZincMemoryError>,
)
    requires
        proves_exactly(system),
        witness::input_rejection(o) is None,
        proof_of_trace(system, o, t, outcome, out),
    ensures
        out is Ok <==> consistency::statement(o),
        !consistency::statement(o) ==> (out matches Err(ZincMemoryError::Prover(_))),
{
    let v = witness::exponent_for(o.len() as int);
    witness::lemma_accepted(o);
    assert(v as usize == v);
}

/// With a sound verifier, the trace that an accepted proof is taken to is in
/// execution order, from time zero on, and every read of it returns the last
/// value written to its address.
pub proof fn verified_proofs_show_a_consistent_trace<S: ProofSystem>(
    system: &S,
    extract: spec_fn(S::Proof) -> UairTrace,
    proof: &ZincMemoryProof<S::Proof>,
    verdict: Result<(), ZincMemoryError>,
)
    requires
        verifies_soundly(system, extract),
        layout::supported(proof.exponent()),
        call_ensures(verify_memory_consistency::<S>, (system, proof), verdict),
        verdict is Ok,
    ensures
        trace::satisfied(extract(proof.inner()), proof.exponent()),
        consistency::statement(
            trace::trace_of(extract(proof.inner()), proof.exponent(), 2 * proof.exponent() - 1),
        ),
{
    let v = proof.exponent();
    assert(v as usize == v);
    let (public_trace, outcome) = choose|public_trace: UairTrace, outcome: Result<(), String>|
        #[trigger] verdict_on_proof(system, proof, public_trace, outcome, verdict);
    assert(outcome->Ok_0 == ());
    trace::satisfying_traces_are_consistent(extract(proof.inner()), v);
}

/// The witness of an execution trace has the fixed public columns.
proof fn lemma_public_columns(t: UairTrace, public_trace: UairTrace, v: int)
    requires
        trace::shaped(t, v),
        trace::public_as_fixed(t, v),
        layout::supported(v),
        is_public_trace(public_trace, v),
    ensures
        has_public_columns(t, public_trace),
{
    assert forall|c: int| 0 <= c < public_trace.int@.len() implies (#[trigger] t.int@[c])@
        == public_trace.int@[c]@ by {
        assert(t.int@[c]@.len() == public_trace.int@[c]@.len());
        assert forall|i: int| 0 <= i < pow2(v as nat) implies t.int@[c]@[i]
            == public_trace.int@[c]@[i] by {
            assert(t.cell(c, i) == trace::public_cell(c, i));
            assert(public_trace.cell(c, i) == trace::public_cell(c, i));
        }
        assert(t.int@[c]@ =~= public_trace.int@[c]@);
    }
}

/// A trace went through prover and verifier: the prover was handed a trace `t` of
/// the constraint system that satisfies it exactly when the execution trace is
/// consistent, the verifier what the prover gave and the public columns of `t`,
/// and both succeeded exactly when their outcomes say so.
pub open spec fn goes_through<S: ProofSystem>(
    system: &S,
    o: Seq<machine::Access>,
    t: UairTrace,
    public_trace: UairTrace,
    given: Result<S::Proof, String>,
    seen: Result<(), String>,
    proved: Result<ZincMemoryProof<S::Proof>, ZincMemoryError>,
    verdict: Result<(), ZincMemoryError>,
) -> bool {
    let v = witness::exponent_for(o.len() as int);
    &&& trace::satisfied(t, v) <==> consistency::statement(o)
    &&& call_ensures(S::prove, (system, &types::sizes_for(v), &t, v as usize), given)
    &&& proved is Ok <==> given is Ok
    &&& given matches Ok(p) ==> {
        &&& is_public_trace(public_trace, v)
        &&& has_public_columns(t, public_trace)
        &&& call_ensures(
            S::verify,
            (system, &types::sizes_for(v), &p, &public_trace, v as usize),
            seen,
        )
        &&& verdict is Ok <==> seen is Ok
    }
}

/// Whatever the proof system does: a trace that is refused before the proof system
/// is asked, other than for its length or its last time, does not meet the
/// statement, and any other goes through prover and verifier.
pub proof fn outcomes_decide_proving_and_verifying<S: ProofSystem>(
    system: &S,
    records: &[TraceRecord],
    proved: Result<ZincMemoryProof<S::Proof>, ZincMemoryError>,
    verdict: Result<(), ZincMemoryError>,
)
    requires
        call_ensures(prove_memory_consistency::<S>, (system, records), proved),
        proved matches Ok(proof) ==> call_ensures(
            verify_memory_consistency::<S>,
            (system, &proof),
            verdict,
        ),
    ensures
        match witness::input_rejection(machine::accesses(records@)) {
            Some(e) => proved is Err && (e is TraceTooLong || e is TimeLogOverflow
                || !consistency::statement(machine::accesses(records@))),
            None => exists|
                t: UairTrace,
                public_trace: UairTrace,
                given: Result<S::Proof, String>,
                seen: Result<(), String>,
            | #[trigger]
                goes_through(
                    system,
                    machine::accesses(records@),
                    t,
                    public_trace,
                    given,
                    seen,
                    proved,
                    verdict,
                ),
        },
{
    let o = machine::accesses(records@);
    if witness::input_rejection(o) is Some {
        let e = witness::input_rejection(o)->Some_0;
        if !(e is TraceTooLong) && !(e is TimeLogOverflow) {
            witness::refused_traces_are_out_of_order(o);
        }
    } else {
        let v = witness::exponent_for(o.len() as int);
        witness::lemma_accepted(o);
        let (t, given) = choose|t: UairTrace, given: Result<S::Proof, String>| #[trigger]
            proof_of_trace(system, o, t, given, proved);
        if proved is Ok {
            let proof = proved->Ok_0;
            let (public_trace, seen) = choose|public_trace: UairTrace, seen: Result<(), String>|
                #[trigger] verdict_on_proof(system, &proof, public_trace, seen, verdict);
            lemma_public_columns(t, public_trace, v);
            assert(goes_through(system, o, t, public_trace, given, seen, proved, verdict));
        } else {
            assert(goes_through(system, o, t, t, given, Ok(()), proved, verdict));
        }
    }
}

/// With a prover that succeeds on exactly the satisfying traces and a verifier
/// that accepts its proofs, a trace that is not too long to be proved is proved
/// and the proof verified exactly when the trace is in execution order, from
/// time zero on, and every read returns the last value written to its address.
pub proof fn proving_and_verifying_decide_consistency<S: ProofSystem>(
    system: &S,
    records: &[TraceRecord],
    proved: Result<ZincMemoryProof<S::Proof>, ZincMemoryError>,
    verdict: Result<(), ZincMemoryError>,
)
    requires
        proves_exactly(system),
        accepts_own_proofs(system),
        witness::input_rejection(machine::accesses(records@)) matches Some(e) ==> !(
        e is TraceTooLong) && !(e is TimeLogOverflow),
        call_ensures(prove_memory_consistency::<S>, (system, records), proved),
        proved matches Ok(proof) ==> call_ensures(
            verify_memory_consistency::<S>,
            (system, &proof),
            verdict,
        ),
    ensures
        proved is Ok ==> verdict is Ok,
        proved is Ok && verdict is Ok <==> consistency::statement(machine::accesses(records@)),
{
    let o = machine::accesses(records@);
    outcomes_decide_proving_and_verifying(system, records, proved, verdict);
    if witness::input_rejection(o) is None {
        let v = witness::exponent_for(o.len() as int);
        witness::lemma_accepted(o);
        assert(v as usize == v);
        let (t, public_trace, given, seen) = choose|
            t: UairTrace,
            public_trace: UairTrace,
            given: Result<S::Proof, String>,
            seen: Result<(), String>,
        | #[trigger]
            goes_through(system, o, t, public_trace, given, seen, proved, verdict);
        let w = v as usize;
        assert(call_ensures(S::prove, (system, &types::sizes_for(w as int), &t, w), given));
        if given is Ok {
            let p = given->Ok_0;
            assert(given == Ok::<S::Proof, String>(p));
            assert(call_ensures(
                S::verify,
                (system, &types::sizes_for(w as int), &p, &public_trace, w),
                seen,
            ));
        }
    }
}

/// Whatever the proof system does: a serialized proof begins with its exponent as
/// a little-endian 32-bit number, its reader is handed exactly the bytes that the
/// writer gave, and it is read back as it was exactly when the reader gives back
/// what was written.
pub proof fn serialized_proofs_reach_the_reader<S: ProofSystem>(
    system: &S,
    proof: ZincMemoryProof<S::Proof>,
    bytes: Vec<u8>,
    given: &[u8],
    out: Result<ZincMemoryProof<S::Proof>, ZincMemoryError>,
)
    requires
        layout::supported(proof.exponent()),
        call_ensures(ZincMemoryProof::<S::Proof>::to_bytes::<S>, (&proof, system), Ok(bytes)),
        given@ == bytes@,
        call_ensures(ZincMemoryProof::<S::Proof>::from_bytes::<S>, (system, given), out),
    ensures
        bytes@.take(4) == le_bytes(proof.exponent()),
        exists|written: Vec<u8>, body: &[u8], outcome: Result<S::Proof, String>|
            {
                &&& #[trigger] call_ensures(S::write, (system, &proof.inner()), Ok(written))
                &&& body@ == written@
                &&& #[trigger] call_ensures(S::read, (system, body), outcome)
                &&& out == Ok::<ZincMemoryProof<S::Proof>, ZincMemoryError>(proof) <==> outcome
                    == Ok::<S::Proof, String>(proof.inner())
                &&& out matches Ok(p) ==> p.exponent() == proof.exponent()
            },
{
    let v = proof.exponent();
    let outcome = choose|outcome: Result<Vec<u8>, String>|
        call_ensures(S::write, (system, &proof.inner()), outcome) && #[trigger] as_written(
            Ok(bytes),
            outcome,
            v,
        );
    let written = outcome->Ok_0;
    frames_are_read_back(v, written@);
    assert(bytes@.take(4) =~= le_bytes(v));
    let (body, seen) = choose|body: &[u8], seen: Result<S::Proof, String>|
        body@ == frame_body(given@) && #[trigger] call_ensures(S::read, (system, body), seen)
            && as_read(out, seen, frame_exponent(given@));
    assert(call_ensures(S::write, (system, &proof.inner()), Ok(written)));
    assert(call_ensures(S::read, (system, body), seen));
}

/// With a reader that gives back what the writer wrote, a serialized proof is
/// read back as it was.
pub proof fn serialized_proofs_are_read_back<S: ProofSystem>(
    system: &S,
    proof: ZincMemoryProof<S::Proof>,
    bytes: Vec<u8>,
    given: &[u8],
    out: Result<ZincMemoryProof<S::Proof>, ZincMemoryError>,
)
    requires
        reads_back(system),
        layout::supported(proof.exponent()),
        call_ensures(ZincMemoryProof::<S::Proof>::to_bytes::<S>, (&proof, system), Ok(bytes)),
        given@ == bytes@,
        call_ensures(ZincMemoryProof::<S::Proof>::from_bytes::<S>, (system, given), out),
    ensures
        out == Ok::<ZincMemoryProof<S::Proof>, ZincMemoryError>(proof),
{
    let v = proof.exponent();
    let outcome = choose|outcome: Result<Vec<u8>, String>|
        call_ensures(S::write, (system, &proof.inner()), outcome) && #[trigger] as_written(
            Ok(bytes),
            outcome,
            v,
        );
    let body = outcome->Ok_0;
    frames_are_read_back(v, body@);
}

} // verus!
