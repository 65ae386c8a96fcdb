use zkmemory::backend::{
    CircuitOutcome, ConsistencyCircuit, Halo2Backend, MemoryConsistencyBackend, ZincPlusBackend,
};
use zkmemory::base::B256;
use zkmemory::machine::{MemoryInstruction, TraceRecord};
use zkmemory::zincplus::error::decimal;
use zkmemory::zincplus::expr::{Constraint, Expr};
use zkmemory::zincplus::layout::{
    NetLayout, MAX_NUM_VARS, MIN_NUM_VARS, NUM_LEX_LIMBS, NUM_VALUE_LIMBS, PAYLOAD_CELLS, PL_ADDR,
    PL_INSTR, PL_STACK_DEPTH, PL_TIME, PL_VALUE,
};
use zkmemory::zincplus::limbs::RowLimbs;
use zkmemory::zincplus::prover::{
    declared_num_vars, prove_from_uair_trace, proved, verified, written,
};
use zkmemory::zincplus::trace::UairTrace;
use zkmemory::zincplus::types::{setup_params, CommitmentSizes};
use zkmemory::zincplus::uair::UairSignature;
use zkmemory::zincplus::witness::{
    build_uair_trace, build_uair_trace_any_start, public_int_columns,
};
use zkmemory::zincplus::{
    prove_memory_consistency, verify_memory_consistency, MemoryConsistencyUair, ProofSystem,
    ZincMemoryError, ZincMemoryProof,
};

// ---------------------------------------------------------------------------
// A proof system whose proofs are the traces themselves: it evaluates every
// constraint on every row but the last.
// ---------------------------------------------------------------------------

#[derive(Clone, Debug, Default)]
struct Direct;

#[derive(Clone, Debug, PartialEq, Eq)]
struct Table {
    binary_poly: Vec<Vec<u32>>,
    int: Vec<Vec<i64>>,
}

fn constraints_for(num_vars: usize) -> (Vec<Constraint>, UairSignature) {
    match num_vars {
        3 => (
            MemoryConsistencyUair::<3>::constrain_general(),
            MemoryConsistencyUair::<3>::signature(),
        ),
        4 => (
            MemoryConsistencyUair::<4>::constrain_general(),
            MemoryConsistencyUair::<4>::signature(),
        ),
        5 => (
            MemoryConsistencyUair::<5>::constrain_general(),
            MemoryConsistencyUair::<5>::signature(),
        ),
        _ => unreachable!("no test goes beyond 32 rows"),
    }
}

/// A polynomial, lowest coefficient first.
type Poly = Vec<i128>;

fn bits(cell: u32) -> Poly {
    (0..32).map(|k| i128::from(cell >> k & 1)).collect()
}

fn combine(a: &Poly, b: &Poly, sign: i128) -> Poly {
    let coefficient = |p: &Poly, i: usize| p.get(i).copied().unwrap_or(0);
    (0..a.len().max(b.len())).map(|i| coefficient(a, i) + sign * coefficient(b, i)).collect()
}

fn multiply(a: &Poly, b: &Poly) -> Poly {
    let mut product = vec![0; a.len() + b.len()];
    for (i, x) in a.iter().enumerate() {
        for (j, y) in b.iter().enumerate() {
            product[i + j] += x * y;
        }
    }
    product
}

struct Cells {
    up: Vec<u32>,
    int: Vec<i64>,
    down: Vec<u32>,
}

fn evaluate(expr: &Expr, cells: &Cells) -> Poly {
    match expr {
        Expr::One => vec![1],
        Expr::UpBinary(c) => bits(cells.up[*c]),
        Expr::UpInt(c) => vec![i128::from(cells.int[*c])],
        Expr::DownBinary(k) => bits(cells.down[*k]),
        Expr::Add(a, b) => combine(&evaluate(a, cells), &evaluate(b, cells), 1),
        Expr::Sub(a, b) => combine(&evaluate(a, cells), &evaluate(b, cells), -1),
        Expr::Mul(a, b) => multiply(&evaluate(a, cells), &evaluate(b, cells)),
    }
}

fn holds(constraint: &Constraint, cells: &Cells) -> bool {
    match constraint {
        Constraint::Zero(e) => evaluate(e, cells).iter().all(|&coefficient| coefficient == 0),
        Constraint::InBaseTwoIdeal(e) => {
            evaluate(e, cells).iter().rev().fold(0, |value, coefficient| 2 * value + coefficient)
                == 0
        }
    }
}

fn check_table(table: &Table, num_vars: usize) -> Result<(), String> {
    let rows = 1usize << num_vars;
    let (constraints, signature) = constraints_for(num_vars);
    assert_eq!(table.binary_poly.len(), signature.total_cols().num_binary_poly_cols());
    assert_eq!(table.int.len(), signature.total_cols().num_int_cols());
    for row in 0..rows - 1 {
        let reached = |column: &Vec<u32>, i: usize| column.get(i).copied().unwrap_or(0);
        let cells = Cells {
            up: table.binary_poly.iter().map(|column| column[row]).collect(),
            int: table.int.iter().map(|column| column[row]).collect(),
            down: signature
                .shifts()
                .iter()
                .map(|s| reached(&table.binary_poly[s.source_col], row + s.shift_amount))
                .collect(),
        };
        for (i, constraint) in constraints.iter().enumerate() {
            if !holds(constraint, &cells) {
                return Err(format!("constraint {i} is violated in row {row}"));
            }
        }
    }
    Ok(())
}

impl ProofSystem for Direct {
    type Proof = Table;

    fn prove(
        &self,
        sizes: &CommitmentSizes,
        trace: &UairTrace,
        num_vars: usize,
    ) -> Result<Table, String> {
        assert_eq!(sizes.poly_size, 1 << num_vars);
        let table = Table { binary_poly: trace.binary_poly.clone(), int: trace.int.clone() };
        check_table(&table, num_vars)?;
        Ok(table)
    }

    fn verify(
        &self,
        sizes: &CommitmentSizes,
        proof: &Table,
        public_trace: &UairTrace,
        num_vars: usize,
    ) -> Result<(), String> {
        assert_eq!(sizes.folded_poly_size, 4 << num_vars);
        assert!(public_trace.binary_poly.is_empty());
        if proof.int[..public_trace.int.len()] != public_trace.int[..] {
            return Err("the public columns differ".to_string());
        }
        check_table(proof, num_vars)
    }

    fn write(&self, proof: &Table) -> Result<Vec<u8>, String> {
        let mut bytes = Vec::new();
        for count in [proof.binary_poly.len(), proof.int.len(), proof.int[0].len()] {
            bytes.extend_from_slice(&(count as u32).to_le_bytes());
        }
        for cell in proof.binary_poly.iter().flatten() {
            bytes.extend_from_slice(&cell.to_le_bytes());
        }
        for cell in proof.int.iter().flatten() {
            bytes.extend_from_slice(&cell.to_le_bytes());
        }
        Ok(bytes)
    }

    fn read(&self, bytes: &[u8]) -> Result<Table, String> {
        let number = |at: usize| -> Result<usize, String> {
            let chunk = bytes.get(at..at + 4).ok_or("truncated counts")?;
            Ok(u32::from_le_bytes(chunk.try_into().unwrap()) as usize)
        };
        let (binary, int, rows) = (number(0)?, number(4)?, number(8)?);
        if bytes.len() != 12 + rows * (4 * binary + 8 * int) {
            return Err("truncated cells".to_string());
        }
        let (limbs, integers) = bytes[12..].split_at(4 * rows * binary);
        Ok(Table {
            binary_poly: limbs
                .chunks(4 * rows)
                .map(|column| {
                    column
                        .chunks(4)
                        .map(|cell| u32::from_le_bytes(cell.try_into().unwrap()))
                        .collect()
                })
                .collect(),
            int: integers
                .chunks(8 * rows)
                .map(|column| {
                    column
                        .chunks(8)
                        .map(|cell| i64::from_le_bytes(cell.try_into().unwrap()))
                        .collect()
                })
                .collect(),
        })
    }
}

// ---------------------------------------------------------------------------
// Traces.
// ---------------------------------------------------------------------------

fn record(
    time_log: u64,
    instruction: MemoryInstruction,
    address: u64,
    value: u64,
) -> TraceRecord {
    TraceRecord::new(time_log, 0, instruction, B256::from(address), B256::from(value))
}

/// A consistent read/write program over three addresses.
fn consistent_trace() -> Vec<TraceRecord> {
    vec![
        record(0, MemoryInstruction::Write, 0x0, 1368),
        record(1, MemoryInstruction::Write, 0x20, 979),
        record(2, MemoryInstruction::Read, 0x0, 1368),
        record(3, MemoryInstruction::Write, 0x40, 42),
        record(4, MemoryInstruction::Read, 0x20, 979),
        record(5, MemoryInstruction::Write, 0x0, 500),
        record(6, MemoryInstruction::Read, 0x0, 500),
        record(7, MemoryInstruction::Read, 0x40, 42),
    ]
}

fn assert_accepted(trace: &[TraceRecord]) {
    let proof = prove_memory_consistency(&Direct, trace)
        .expect("the trace is consistent; proving succeeds");
    verify_memory_consistency(&Direct, &proof).expect("the proof is honest; verification succeeds");
}

fn assert_rejected(trace: &[TraceRecord]) {
    if let Ok(proof) = prove_memory_consistency(&Direct, trace) {
        assert!(
            verify_memory_consistency(&Direct, &proof).is_err(),
            "an inconsistent trace slipped through both the prover and the verifier"
        );
    }
}

fn sample_trace() -> Vec<TraceRecord> {
    vec![
        record(0, MemoryInstruction::Write, 0, 7),
        record(1, MemoryInstruction::Write, 32, 8),
        record(2, MemoryInstruction::Read, 0, 7),
        record(3, MemoryInstruction::Read, 32, 8),
    ]
}

#[test]
fn test_zincplus_backend_accepts_consistent_trace() {
    let backend = ZincPlusBackend::<Direct>::default();
    let proof = backend.prove(&sample_trace()).expect("consistent trace proves");
    backend.verify(&proof).expect("proof verifies");
}

#[test]
fn test_zincplus_backend_rejects_inconsistent_trace() {
    let mut trace = sample_trace();
    trace[2] = record(2, MemoryInstruction::Read, 0, 9);
    let backend = ZincPlusBackend::<Direct>::default();
    if let Ok(proof) = backend.prove(&trace) {
        assert!(backend.verify(&proof).is_err());
    }
}

#[test]
fn test_consistent_trace_roundtrip() {
    assert_accepted(&consistent_trace());
}

#[test]
fn test_single_write_trace() {
    assert_accepted(&[record(0, MemoryInstruction::Write, 0xffff, u64::MAX)]);
}

#[test]
fn test_time_gaps_accepted() {
    let trace = vec![
        record(0, MemoryInstruction::Write, 0x0, 7),
        record(5, MemoryInstruction::Read, 0x0, 7),
        record(1000, MemoryInstruction::Write, 0x20, 9),
        record((1 << 33) + 1, MemoryInstruction::Read, 0x20, 9),
    ];
    assert_accepted(&trace);
}

#[test]
fn test_nonzero_stack_depth_accepted() {
    let trace = vec![
        TraceRecord::new(0, 3, MemoryInstruction::Write, B256::from(0u64), B256::from(1u64)),
        TraceRecord::new(1, 9, MemoryInstruction::Read, B256::from(0u64), B256::from(1u64)),
    ];
    assert_accepted(&trace);
}

#[test]
fn test_wide_addresses_and_values() {
    let a = B256::from([0x11u8; 32]);
    let mut b_bytes = [0x11u8; 32];
    b_bytes[31] = 0x12; // differs from `a` only in the least significant limb
    let b = B256::from(b_bytes);
    let big = B256::from([0xabu8; 32]);

    let trace = vec![
        TraceRecord::new(0, 0, MemoryInstruction::Write, a, big),
        TraceRecord::new(1, 0, MemoryInstruction::Write, b, B256::from(7u64)),
        TraceRecord::new(2, 0, MemoryInstruction::Read, a, big),
        TraceRecord::new(3, 0, MemoryInstruction::Read, b, B256::from(7u64)),
    ];
    assert_accepted(&trace);
}

#[test]
fn test_power_of_two_length_trace() {
    let trace = consistent_trace();
    assert_eq!(trace.len(), 8);
    let proof = prove_memory_consistency(&Direct, &trace).expect("proving succeeds");
    assert_eq!(proof.num_vars(), 4);
    verify_memory_consistency(&Direct, &proof).expect("verification succeeds");
}

#[test]
fn test_proof_serialization_roundtrip() {
    let trace = &consistent_trace()[..7];
    let proof = prove_memory_consistency(&Direct, trace).expect("proving succeeds");
    let bytes = proof.to_bytes(&Direct).expect("serialization succeeds");
    let restored = ZincMemoryProof::from_bytes(&Direct, &bytes).expect("deserialization succeeds");
    assert_eq!(proof, restored);
    verify_memory_consistency(&Direct, &restored).expect("the restored proof verifies");
}

#[test]
fn test_tampered_proof_rejected() {
    let proof =
        prove_memory_consistency(&Direct, &consistent_trace()[..7]).expect("proving succeeds");
    let bytes = proof.to_bytes(&Direct).expect("serialization succeeds");
    // Flip one byte somewhere inside the proof body (past the num_vars
    // header) and require rejection.
    let mut tampered = bytes.clone();
    let target = 4 + (tampered.len() - 4) / 2;
    tampered[target] ^= 0x01;
    match ZincMemoryProof::from_bytes(&Direct, &tampered) {
        // Either the proof no longer parses...
        Err(_) => {}
        // ...or it parses and must fail verification.
        Ok(p) => assert!(verify_memory_consistency(&Direct, &p).is_err()),
    }
}

#[test]
fn test_read_before_any_write_rejected() {
    // The very first access of the sorted trace is a read.
    assert_rejected(&[record(0, MemoryInstruction::Read, 0x0, 0)]);
}

#[test]
fn test_read_of_unwritten_address_rejected() {
    // Address 0x40 is never written; its first access is a read.
    let trace = vec![
        record(0, MemoryInstruction::Write, 0x0, 11),
        record(1, MemoryInstruction::Read, 0x40, 11),
    ];
    assert_rejected(&trace);
}

#[test]
fn test_stale_read_value_rejected() {
    // The read at time 2 returns the overwritten value.
    let trace = vec![
        record(0, MemoryInstruction::Write, 0x0, 100),
        record(1, MemoryInstruction::Write, 0x0, 200),
        record(2, MemoryInstruction::Read, 0x0, 100),
    ];
    assert_rejected(&trace);
}

#[test]
fn test_wrong_read_value_high_limb_rejected() {
    // The wrong value differs from the written one only in the most
    // significant limb.
    let written = B256::from(1u64);
    let mut wrong_bytes = [0u8; 32];
    wrong_bytes[0] = 1; // 2^248
    wrong_bytes[31] = 1;
    let wrong = B256::from(wrong_bytes);
    let a = B256::from(0x80u64);
    let trace = vec![
        TraceRecord::new(0, 0, MemoryInstruction::Write, a, written),
        TraceRecord::new(1, 0, MemoryInstruction::Read, a, wrong),
    ];
    assert_rejected(&trace);
}

#[test]
fn test_empty_trace_rejected() {
    assert_eq!(prove_memory_consistency(&Direct, &[]), Err(ZincMemoryError::EmptyTrace));
}

#[test]
fn test_first_time_nonzero_rejected() {
    assert_eq!(
        prove_memory_consistency(&Direct, &[record(1, MemoryInstruction::Write, 0x0, 1)]),
        Err(ZincMemoryError::FirstTimeNonZero { time_log: 1 })
    );
}

#[test]
fn test_time_decreasing_rejected() {
    let trace = vec![
        record(0, MemoryInstruction::Write, 0x0, 1),
        record(2, MemoryInstruction::Write, 0x20, 2),
        record(1, MemoryInstruction::Write, 0x40, 3),
    ];
    assert_eq!(
        prove_memory_consistency(&Direct, &trace),
        Err(ZincMemoryError::TimeNotIncreasing { time_log: 1 })
    );
}

#[test]
fn test_duplicated_access_rejected() {
    // Two records with the same time_log at the same address.
    let trace = vec![
        record(0, MemoryInstruction::Write, 0x0, 1),
        record(0, MemoryInstruction::Read, 0x0, 1),
    ];
    assert_eq!(
        prove_memory_consistency(&Direct, &trace),
        Err(ZincMemoryError::DuplicatedAccess { time_log: 0 })
    );
}

#[test]
fn test_same_time_different_address_rejected() {
    let trace = vec![
        record(0, MemoryInstruction::Write, 0x0, 1),
        record(0, MemoryInstruction::Write, 0x20, 2),
    ];
    assert_eq!(
        prove_memory_consistency(&Direct, &trace),
        Err(ZincMemoryError::DuplicatedAccess { time_log: 0 })
    );
}

#[test]
fn test_time_log_overflow_rejected() {
    // The padding rows would need time_logs beyond u64::MAX.
    let trace = vec![
        record(0, MemoryInstruction::Write, 0x0, 1),
        record(u64::MAX, MemoryInstruction::Write, 0x20, 2),
    ];
    assert_eq!(
        prove_memory_consistency(&Direct, &trace),
        Err(ZincMemoryError::TimeLogOverflow)
    );
}

#[test]
fn test_truncated_proof_rejected() {
    let proof =
        prove_memory_consistency(&Direct, &consistent_trace()[..7]).expect("proving succeeds");
    let bytes = proof.to_bytes(&Direct).expect("serialization succeeds");
    assert!(ZincMemoryProof::from_bytes(&Direct, &bytes[..bytes.len() / 2]).is_err());
    assert!(ZincMemoryProof::from_bytes(&Direct, &[]).is_err());
}

// ---------------------------------------------------------------------------
// Tampered witnesses: exactly one cell of an otherwise honest witness is
// changed, which must be caught.
// ---------------------------------------------------------------------------

fn assert_tampered_witness_rejected(mutate: impl FnOnce(&mut UairTrace, &NetLayout)) {
    let trace = consistent_trace();
    let (mut uair_trace, num_vars) =
        build_uair_trace(&trace[..7]).expect("the honest witness builds");
    let layout = NetLayout::new(num_vars);
    mutate(&mut uair_trace, &layout);
    match prove_from_uair_trace(&Direct, &uair_trace, num_vars) {
        Err(ZincMemoryError::Prover(_)) => {}
        Err(other) => panic!("unexpected error kind: {}", other.message()),
        Ok(proof) => assert!(
            verify_memory_consistency(&Direct, &proof).is_err(),
            "a tampered witness slipped through both the prover and the verifier"
        ),
    }
}

#[test]
fn test_tamper_original_trace_record_rejected() {
    assert_tampered_witness_rejected(|uair_trace, layout| {
        let col = layout.state_col(layout.original_state(), PL_VALUE + 7);
        uair_trace.binary_poly[col][0] = 0xdead_beef;
    });
}

#[test]
fn test_tamper_sorted_trace_record_rejected() {
    // No sorted-consistency constraint reads the stack depth: only the
    // network binds it.
    assert_tampered_witness_rejected(|uair_trace, layout| {
        let col = layout.state_col(0, PL_STACK_DEPTH + 1);
        uair_trace.binary_poly[col][2] = 7;
    });
}

#[test]
fn test_tamper_interior_network_state_rejected() {
    assert_tampered_witness_rejected(|uair_trace, layout| {
        let col = layout.state_col(layout.num_layers / 2, PL_INSTR);
        let cell = &mut uair_trace.binary_poly[col][1];
        *cell = if *cell == 1 { 0 } else { 1 };
    });
}

#[test]
fn test_tamper_switch_bit_rejected() {
    assert_tampered_witness_rejected(|uair_trace, layout| {
        let col = layout.int_switch; // layer 0; row 0 is an upper wire
        let cell = &mut uair_trace.int[col][0];
        *cell = 1 - *cell;
    });
}

#[test]
fn test_tamper_switch_bit_non_boolean_rejected() {
    assert_tampered_witness_rejected(|uair_trace, layout| {
        let col = layout.int_switch + 1; // layer 1; row 0 is an upper wire
        uair_trace.int[col][0] = 2;
    });
}

#[test]
fn test_tamper_original_time_slack_rejected() {
    assert_tampered_witness_rejected(|uair_trace, layout| {
        uair_trace.binary_poly[layout.bp_slack_original][0] = 41;
    });
}

#[test]
fn test_nonzero_start_time_rejected_in_circuit() {
    let shifted: Vec<TraceRecord> = consistent_trace()[..7]
        .iter()
        .map(|r| {
            TraceRecord::new(
                r.time_log() + 1,
                r.stack_depth(),
                r.instruction(),
                r.address(),
                r.value(),
            )
        })
        .collect();
    // The public entry point refuses it outright...
    assert_eq!(
        prove_memory_consistency(&Direct, &shifted),
        Err(ZincMemoryError::FirstTimeNonZero { time_log: 1 })
    );
    // ...and so do the constraints when validation is bypassed.
    let (uair_trace, num_vars) =
        build_uair_trace_any_start(&shifted).expect("the shifted witness builds");
    match prove_from_uair_trace(&Direct, &uair_trace, num_vars) {
        Err(ZincMemoryError::Prover(_)) => {}
        Err(other) => panic!("unexpected error kind: {}", other.message()),
        Ok(proof) => assert!(
            verify_memory_consistency(&Direct, &proof).is_err(),
            "a nonzero-start trace slipped through the circuit"
        ),
    }
}

#[test]
fn test_honest_witness_still_proves_after_helper_roundtrip() {
    let (uair_trace, num_vars) =
        build_uair_trace(&consistent_trace()[..7]).expect("the honest witness builds");
    let proof =
        prove_from_uair_trace(&Direct, &uair_trace, num_vars).expect("honest witness proves");
    verify_memory_consistency(&Direct, &proof).expect("honest proof verifies");
}

#[test]
fn test_trace_too_long_rejected() {
    let too_long = 1usize << MAX_NUM_VARS;
    let trace: Vec<TraceRecord> =
        (0..too_long as u64).map(|t| record(t, MemoryInstruction::Write, 0x0, 1)).collect();
    assert_eq!(prove_memory_consistency(&Direct, &trace), Err(ZincMemoryError::TraceTooLong));
}

#[test]
fn test_error_display_is_informative() {
    let message = ZincMemoryError::FirstTimeNonZero { time_log: 42 }.message();
    assert!(message.contains("42"), "unhelpful message: {message}");
}

#[test]
fn test_layout_shift_list_is_sorted_and_complete() {
    for num_vars in MIN_NUM_VARS..=6 {
        let layout = NetLayout::new(num_vars);
        assert!(layout.shifts.windows(2).all(|w| w[0] < w[1]));
        // Every constraint-side lookup must resolve.
        for layer in 0..layout.num_layers {
            let stride = layout.stride(layer);
            for payload in 0..PAYLOAD_CELLS {
                layout.down_idx(layout.state_col(layer, payload), stride);
                layout.down_idx(layout.state_col(layer + 1, payload), stride);
            }
        }
        for j in 0..NUM_LEX_LIMBS {
            layout.down_idx(layout.state_col(0, PL_ADDR + j), 1);
        }
        for j in 0..NUM_VALUE_LIMBS {
            layout.down_idx(layout.state_col(0, PL_VALUE + j), 1);
        }
        layout.down_idx(layout.state_col(0, PL_INSTR), 1);
        layout.down_idx(layout.state_col(layout.original_state(), PL_TIME), 1);
        layout.down_idx(layout.state_col(layout.original_state(), PL_TIME + 1), 1);
    }
}

#[test]
fn test_signature_dimensions_match_layout() {
    let layout = NetLayout::new(3);
    let signature = MemoryConsistencyUair::<3>::signature();
    assert_eq!(signature.total_cols().num_binary_poly_cols(), layout.num_bp_cols);
    assert_eq!(signature.total_cols().num_int_cols(), layout.num_int_cols);
    assert_eq!(signature.public_cols().num_int_cols(), layout.num_public_int_cols);
    assert_eq!(signature.shifts().len(), layout.shifts.len());
    // All shifted sources are binary columns, so the down row is pure
    // binary: its layout must place every virtual column there.
    assert_eq!(signature.down_cols().num_binary_poly_cols(), layout.shifts.len());
    assert_eq!(signature.down_cols().num_int_cols(), 0);
}

// ---------------------------------------------------------------------------
// Further cases.
// ---------------------------------------------------------------------------

#[test]
fn columns_are_numbered_as_documented() {
    let layout = NetLayout::new(3);
    assert_eq!(layout.num_bp_cols, 128);
    assert_eq!(layout.num_int_cols, 22);
    assert_eq!(layout.num_public_int_cols, 4);
    assert_eq!((layout.bp_slack_sorted, layout.bp_slack_original), (126, 127));
    assert_eq!(layout.state_col(layout.original_state(), PL_TIME), 113);
    assert_eq!((layout.int_s, layout.int_w), (4, 14));
    assert_eq!((layout.int_time_hi_sel, layout.int_time_lo_sel), (15, 16));
    assert_eq!(layout.int_switch, 17);
    for (k, &(c, amount)) in layout.shifts.iter().enumerate() {
        assert_eq!(layout.down_idx(c, amount), k);
    }
}

#[test]
fn shifts_are_listed_by_column_and_distance() {
    let layout = NetLayout::new(3);
    assert_eq!(layout.shifts[..2], [(0, 1), (0, 4)]);
    // The stack depth of the sorted trace is read by the network alone.
    assert!(!layout.shifts.contains(&(PL_STACK_DEPTH, 1)));
    assert!(layout.shifts.contains(&(21, 2)) && layout.shifts.contains(&(21, 4)));
    assert_eq!(layout.shifts[layout.shifts.len() - 1], (125, 4));
    // 19 + 21 for the first state, 42 for each interior one, 2 + 21 for the last.
    assert_eq!(layout.shifts.len(), 40 + 4 * 42 + 23);
}

#[test]
fn public_columns_tell_rows_by_index() {
    assert_eq!(
        public_int_columns(3),
        [
            [1, 0, 0, 0, 0, 0, 0, 0],
            [1, 0, 1, 0, 1, 0, 1, 0],
            [1, 1, 0, 0, 1, 1, 0, 0],
            [1, 1, 1, 1, 0, 0, 0, 0],
        ]
    );
}

/// Writes and reads of three neighbouring cells, ending with the first access
/// to the third.
fn seven_accesses() -> Vec<TraceRecord> {
    vec![
        record(0, MemoryInstruction::Write, 10, 10),
        record(1, MemoryInstruction::Write, 11, 20),
        record(2, MemoryInstruction::Read, 10, 10),
        record(3, MemoryInstruction::Write, 10, 30),
        record(4, MemoryInstruction::Read, 11, 20),
        record(5, MemoryInstruction::Read, 10, 30),
        record(6, MemoryInstruction::Write, 12, 40),
    ]
}

#[test]
fn the_witness_of_a_small_trace_is_as_worked_out_by_hand() {
    let (t, num_vars) = build_uair_trace(&seven_accesses()).unwrap();
    assert_eq!(num_vars, 3);
    let layout = NetLayout::new(3);
    let limb = |state: usize, payload: usize| &t.binary_poly[layout.state_col(state, payload)];
    // The sorted trace, with one padding read at the end.
    assert_eq!(*limb(0, PL_ADDR + 7), [10, 10, 10, 10, 11, 11, 12, 12]);
    assert_eq!(*limb(0, PL_TIME + 1), [0, 2, 3, 5, 1, 4, 6, 7]);
    assert_eq!(*limb(0, PL_VALUE + 7), [10, 10, 30, 30, 20, 20, 40, 40]);
    assert_eq!(*limb(0, PL_INSTR), [1, 0, 1, 0, 1, 0, 1, 0]);
    // The network takes it to the original trace, one layer at a time.
    assert_eq!(*limb(1, PL_TIME + 1), [0, 2, 3, 5, 1, 4, 6, 7]);
    assert_eq!(*limb(2, PL_TIME + 1), [0, 5, 3, 2, 1, 4, 6, 7]);
    assert_eq!(*limb(3, PL_TIME + 1), [0, 5, 2, 3, 4, 1, 6, 7]);
    assert_eq!(*limb(4, PL_TIME + 1), [0, 5, 2, 3, 4, 1, 6, 7]);
    assert_eq!(*limb(5, PL_TIME + 1), [0, 1, 2, 3, 4, 5, 6, 7]);
    assert_eq!(*limb(5, PL_ADDR + 7), [10, 11, 10, 10, 11, 10, 12, 12]);
    // Slacks, selectors and the helper.
    assert_eq!(t.binary_poly[layout.bp_slack_sorted], [1, 0, 1, 0, 2, 0, 0, 0]);
    assert_eq!(t.binary_poly[layout.bp_slack_original], [0; 8]);
    assert_eq!(t.int[layout.int_s + 7], [0, 0, 0, 1, 0, 1, 0, 0]);
    assert_eq!(t.int[layout.int_s + 9], [1, 1, 1, 0, 1, 0, 1, 0]);
    assert_eq!(t.int[layout.int_w], [-1, 0, -1, 0, -1, 0, -1, 0]);
    assert_eq!(t.int[layout.int_time_hi_sel], [0; 8]);
    assert_eq!(t.int[layout.int_time_lo_sel], [1, 1, 1, 1, 1, 1, 1, 0]);
    // Switches.
    assert_eq!(t.int[layout.int_switch], [0; 8]);
    assert_eq!(t.int[layout.int_switch + 1], [0, 1, 0, 0, 0, 0, 0, 0]);
    assert_eq!(t.int[layout.int_switch + 2], [0, 0, 1, 0, 1, 0, 0, 0]);
    assert_eq!(t.int[layout.int_switch + 3], [0; 8]);
    assert_eq!(t.int[layout.int_switch + 4], [0, 1, 0, 0, 0, 0, 0, 0]);
    // The public columns come first.
    assert_eq!(t.int[..4], public_int_columns(3)[..]);
    assert_accepted(&seven_accesses());
}

#[test]
fn a_wide_time_step_selects_the_high_limb() {
    let trace = [
        record(0, MemoryInstruction::Write, 1, 1),
        record(3 << 32, MemoryInstruction::Read, 1, 1),
    ];
    let (t, _) = build_uair_trace(&trace).unwrap();
    let layout = NetLayout::new(3);
    assert_eq!(t.int[layout.int_time_hi_sel], [1, 0, 0, 0, 0, 0, 0, 0]);
    assert_eq!(t.int[layout.int_time_lo_sel], [0, 1, 1, 1, 1, 1, 1, 0]);
    assert_eq!(t.binary_poly[layout.bp_slack_original], [2, 0, 0, 0, 0, 0, 0, 0]);
}

#[test]
fn records_are_split_into_limbs() {
    let row = RowLimbs::from_record(&TraceRecord::new(
        0x1_0000_0002,
        0x3_0000_0004,
        MemoryInstruction::Write,
        B256::from(0x5_0000_0006u64),
        B256::from([0xff; 32]),
    ));
    let mut limbs = vec![0, 0, 0, 0, 0, 0, 5, 6, 1, 2, 3, 4];
    limbs.extend([u32::MAX; 8]);
    limbs.push(1);
    let cells: Vec<u32> = (0..PAYLOAD_CELLS).map(|p| row.payload(p)).collect();
    assert_eq!(cells, limbs);
    assert_eq!(row.lex_limb(9), 2);
}

#[test]
fn the_row_count_leaves_room_for_padding() {
    let writes = |n: u64| -> Vec<TraceRecord> {
        (0..n).map(|t| record(t, MemoryInstruction::Write, t, t)).collect()
    };
    for (records, num_vars) in [(1, 3), (7, 3), (8, 4), (15, 4), (16, 5), (31, 5)] {
        assert_eq!(build_uair_trace(&writes(records)).unwrap().1, num_vars);
    }
}

#[test]
fn padding_may_use_the_last_representable_time() {
    let ending_at = |time: u64| {
        [
            record(0, MemoryInstruction::Write, 0, 1),
            record(time, MemoryInstruction::Write, 1, 2),
        ]
    };
    // Six padding rows follow two records.
    assert!(build_uair_trace(&ending_at(u64::MAX - 6)).is_ok());
    assert_eq!(
        build_uair_trace(&ending_at(u64::MAX - 5)).err(),
        Some(ZincMemoryError::TimeLogOverflow)
    );
}

#[test]
fn the_first_disorder_is_reported() {
    let trace = [
        record(0, MemoryInstruction::Write, 0, 1),
        record(4, MemoryInstruction::Write, 0, 1),
        record(4, MemoryInstruction::Write, 0, 1),
        record(1, MemoryInstruction::Write, 0, 1),
    ];
    assert_eq!(
        build_uair_trace_any_start(&trace).err(),
        Some(ZincMemoryError::DuplicatedAccess { time_log: 4 })
    );
    assert_eq!(
        build_uair_trace_any_start(&trace[2..]).err(),
        Some(ZincMemoryError::TimeNotIncreasing { time_log: 1 })
    );
    assert_eq!(build_uair_trace_any_start(&[]).err(), Some(ZincMemoryError::EmptyTrace));
}

#[test]
fn inconsistent_traces_fail_at_the_prover() {
    let stale = [
        record(0, MemoryInstruction::Write, 0, 100),
        record(1, MemoryInstruction::Write, 0, 200),
        record(2, MemoryInstruction::Read, 0, 100),
    ];
    match prove_memory_consistency(&Direct, &stale) {
        Err(ZincMemoryError::Prover(_)) => {}
        other => panic!("unexpected outcome: {other:?}"),
    }
}

#[test]
fn tampered_selectors_and_helpers_are_caught() {
    assert_tampered_witness_rejected(|t, layout| t.int[layout.int_w][0] = 0);
    assert_tampered_witness_rejected(|t, layout| t.int[layout.int_s + 9][0] = 0);
    assert_tampered_witness_rejected(|t, layout| t.int[layout.int_time_lo_sel][0] = 0);
    assert_tampered_witness_rejected(|t, layout| t.binary_poly[layout.bp_slack_sorted][1] = 9);
    // A public column that is not the fixed one is caught by the verifier.
    assert_tampered_witness_rejected(|t, _| t.int[1][7] = 1);
}

#[test]
fn a_proof_starts_with_its_row_count_exponent() {
    let proof = prove_memory_consistency(&Direct, &consistent_trace()).unwrap();
    let bytes = proof.to_bytes(&Direct).unwrap();
    assert_eq!(bytes[..4], [4, 0, 0, 0]);
    assert_eq!(declared_num_vars(&bytes), Ok(4));
}

#[test]
fn malformed_proofs_are_told_apart() {
    let malformed = |text: &str| ZincMemoryError::MalformedProof(text.to_string());
    let read = |bytes: &[u8]| ZincMemoryProof::from_bytes(&Direct, bytes).unwrap_err();
    assert_eq!(read(&[3, 0, 0]), malformed("buffer too short"));
    assert_eq!(read(&[2, 0, 0, 0, 1]), malformed("num_vars 2 outside [3, 16]"));
    assert_eq!(read(&[17, 0, 0, 0]), malformed("num_vars 17 outside [3, 16]"));
    assert_eq!(read(&[0, 0, 0, 1]), malformed("num_vars 16777216 outside [3, 16]"));
    assert_eq!(read(&[3, 0, 0, 0, 1]), malformed("truncated counts"));
    assert_eq!(declared_num_vars(&[16, 0, 0, 0]), Ok(16));
}

#[test]
fn a_proof_for_an_unsupported_row_count_is_refused() {
    let table = Table { binary_poly: Vec::new(), int: Vec::new() };
    let proof = proved(Ok(table), 17).unwrap();
    assert_eq!(
        verify_memory_consistency(&Direct, &proof),
        Err(ZincMemoryError::MalformedProof("num_vars 17 outside [3, 16]".to_string()))
    );
}

#[test]
fn outcomes_of_the_proof_system_become_errors() {
    assert_eq!(
        proved::<Table>(Err("no".to_string()), 3),
        Err(ZincMemoryError::Prover("no".to_string()))
    );
    assert_eq!(verified(Ok(())), Ok(()));
    assert_eq!(
        verified(Err("no".to_string())),
        Err(ZincMemoryError::Verifier("no".to_string()))
    );
    assert_eq!(
        written(Err("no".to_string()), 3),
        Err(ZincMemoryError::MalformedProof("no".to_string()))
    );
    assert_eq!(
        written(Ok(vec![9]), 1 << 32),
        Err(ZincMemoryError::MalformedProof("num_vars overflow".to_string()))
    );
    assert_eq!(written(Ok(vec![9, 8]), 0x0102_0304), Ok(vec![4, 3, 2, 1, 9, 8]));
}

#[test]
fn a_proof_is_refused_where_the_verifier_refuses_it() {
    let (mut t, num_vars) = build_uair_trace(&seven_accesses()).unwrap();
    t.int[3][7] = 5;
    // No constraint is anchored at the last row, so the prover goes along.
    let proof = prove_from_uair_trace(&Direct, &t, num_vars).unwrap();
    assert_eq!(
        verify_memory_consistency(&Direct, &proof),
        Err(ZincMemoryError::Verifier("the public columns differ".to_string()))
    );
}

#[test]
fn commitments_cover_the_rows_and_the_folded_rows() {
    assert_eq!(setup_params(3), CommitmentSizes { poly_size: 8, folded_poly_size: 32 });
    assert_eq!(
        setup_params(16),
        CommitmentSizes { poly_size: 1 << 16, folded_poly_size: 1 << 18 }
    );
}

#[test]
fn errors_say_what_went_wrong() {
    let text = |e: ZincMemoryError| e.message();
    assert_eq!(text(ZincMemoryError::EmptyTrace), "the execution trace is empty");
    assert_eq!(
        text(ZincMemoryError::TraceTooLong),
        "the execution trace exceeds 2^16 - 1 records"
    );
    assert_eq!(
        text(ZincMemoryError::DuplicatedAccess { time_log: 70 }),
        "two trace records share the same (address, time_log = 70)"
    );
    assert!(text(ZincMemoryError::TimeNotIncreasing { time_log: 81 }).contains("81"));
    assert_eq!(
        text(ZincMemoryError::TimeLogOverflow),
        "padding the trace would overflow the u64 time domain"
    );
    assert_eq!(
        text(ZincMemoryError::UnsortedTrace),
        "internal error: sorted trace is not increasing"
    );
    assert_eq!(
        text(ZincMemoryError::MalformedProof("x".to_string())),
        "malformed proof: x"
    );
    assert_eq!(text(ZincMemoryError::Prover("y".to_string())), "Zinc+ prover error: y");
    assert_eq!(
        text(ZincMemoryError::Verifier("z".to_string())),
        "Zinc+ verification failed: z"
    );
    for n in [0, 9, 10, 305, u64::MAX] {
        assert_eq!(decimal(n), n.to_string());
    }
}

/// A circuit that is satisfied by exactly the consistent traces.
struct Decided;

impl ConsistencyCircuit for Decided {
    fn run(&self, _k: u32, input: &[TraceRecord], shuffle: &[TraceRecord]) -> CircuitOutcome {
        let ordered = input.first().is_some_and(|r| r.time_log() == 0)
            && input.windows(2).all(|w| w[0].time_log() < w[1].time_log());
        let is_write = |r: &TraceRecord| r.instruction() == MemoryInstruction::Write;
        let agree = shuffle.first().is_some_and(is_write)
            && shuffle.windows(2).all(|w| {
                is_write(&w[1])
                    || (w[0].address() == w[1].address() && w[0].value() == w[1].value())
            });
        if ordered && agree {
            CircuitOutcome::Satisfied
        } else {
            CircuitOutcome::Failed("inconsistent".to_string())
        }
    }
}

#[test]
fn both_backends_decide_the_same_statement() {
    let write = MemoryInstruction::Write;
    let read = MemoryInstruction::Read;
    let traces = [
        consistent_trace(),
        seven_accesses(),
        vec![record(0, read, 0, 0)],
        vec![record(0, write, 1, 5), record(1, read, 1, 6)],
        vec![record(0, write, 1, 5), record(1, read, 2, 5)],
        vec![record(0, write, 1, 5), record(1, write, 1, 6), record(9, read, 1, 6)],
        vec![record(0, write, 1, 5), record(1, write, 1, 6), record(9, read, 1, 5)],
        vec![record(1, write, 1, 5)],
        vec![],
    ];
    let accepted: Vec<bool> = traces
        .iter()
        .map(|trace| Halo2Backend { k: 10, circuit: Decided }.prove(trace).is_ok())
        .collect();
    assert_eq!(accepted, [true, true, false, false, false, true, false, false, false]);
    for (trace, expected) in traces.iter().zip(accepted) {
        assert_eq!(ZincPlusBackend { system: Direct }.prove(trace).is_ok(), expected);
    }
}

#[test]
fn every_network_state_holds_the_same_records() {
    let (t, num_vars) = build_uair_trace(&consistent_trace()).unwrap();
    let layout = NetLayout::new(num_vars);
    let records_of = |state: usize| -> Vec<Vec<u32>> {
        let mut rows: Vec<Vec<u32>> = (0..1 << num_vars)
            .map(|row| {
                (0..PAYLOAD_CELLS)
                    .map(|p| t.binary_poly[layout.state_col(state, p)][row])
                    .collect()
            })
            .collect();
        rows.sort();
        rows
    };
    for state in 1..layout.num_states {
        assert_eq!(records_of(state), records_of(0));
    }
}

#[test]
fn both_builders_give_the_same_trace_from_time_zero() {
    for trace in [consistent_trace(), seven_accesses()] {
        let (a, v) = build_uair_trace(&trace).unwrap();
        let (b, w) = build_uair_trace_any_start(&trace).unwrap();
        assert_eq!(v, w);
        assert_eq!(a.binary_poly, b.binary_poly);
        assert_eq!(a.int, b.int);
    }
    assert_eq!(build_uair_trace(&[]).err(), build_uair_trace_any_start(&[]).err());
    let repeated = [
        record(0, MemoryInstruction::Write, 0, 1),
        record(0, MemoryInstruction::Write, 0, 1),
    ];
    assert_eq!(build_uair_trace(&repeated).err(), build_uair_trace_any_start(&repeated).err());
}

#[test]
fn a_late_start_is_reported_before_anything_else() {
    let trace = [
        record(4, MemoryInstruction::Write, 0, 1),
        record(4, MemoryInstruction::Write, 0, 1),
    ];
    assert_eq!(
        build_uair_trace(&trace).err(),
        Some(ZincMemoryError::FirstTimeNonZero { time_log: 4 })
    );
    assert_eq!(
        build_uair_trace_any_start(&trace).err(),
        Some(ZincMemoryError::DuplicatedAccess { time_log: 4 })
    );
}

#[test]
fn reads_return_the_value_of_the_latest_access() {
    let mut trace = vec![
        record(0, MemoryInstruction::Write, 10, 1),
        record(1, MemoryInstruction::Write, 11, 2),
        record(2, MemoryInstruction::Write, 10, 3),
        record(3, MemoryInstruction::Read, 10, 3),
        record(4, MemoryInstruction::Read, 11, 2),
    ];
    assert_accepted(&trace);
    // The value that was written first is no longer there.
    trace[3] = record(3, MemoryInstruction::Read, 10, 1);
    assert_rejected(&trace);
}

fn degree(e: &Expr) -> usize {
    match e {
        Expr::One => 0,
        Expr::UpBinary(_) | Expr::UpInt(_) | Expr::DownBinary(_) => 1,
        Expr::Add(a, b) | Expr::Sub(a, b) => degree(a).max(degree(b)),
        Expr::Mul(a, b) => degree(a) + degree(b),
    }
}

#[test]
fn constraints_are_emitted_one_by_one_and_in_order() {
    for (v, constraints) in [
        (3, MemoryConsistencyUair::<3>::constrain_general()),
        (4, MemoryConsistencyUair::<4>::constrain_general()),
        (5, MemoryConsistencyUair::<5>::constrain_general()),
    ] {
        assert_eq!(constraints.len(), 86 * v - 2);
        // The steps of key and time are the only ones in the ideal.
        let in_ideal: Vec<usize> = (0..constraints.len())
            .filter(|&i| matches!(constraints[i], Constraint::InBaseTwoIdeal(_)))
            .collect();
        assert_eq!(in_ideal, [23, 40]);
        let degrees: Vec<usize> = constraints
            .iter()
            .map(|c| match c {
                Constraint::Zero(e) | Constraint::InBaseTwoIdeal(e) => degree(e),
            })
            .collect();
        for (i, &d) in degrees.iter().enumerate() {
            let expected = match i {
                12 | 38 => 1,
                0..=40 => 2,
                _ => 3,
            };
            assert_eq!(d, expected, "constraint {i}");
        }
        // A read of value limb `j` multiplies the helper and the limb's step.
        let layout = NetLayout::new(v);
        for j in 0..8 {
            let Constraint::Zero(Expr::Mul(helper, step)) = &constraints[25 + j] else {
                panic!("constraint {} is no product", 25 + j);
            };
            let Expr::Sub(_, here) = &**step else {
                panic!("constraint {} has no step", 25 + j);
            };
            assert!(matches!(**helper, Expr::UpInt(c) if c == layout.int_w));
            let column = layout.state_col(0, PL_VALUE + j);
            assert!(matches!(**here, Expr::UpBinary(c) if c == column));
        }
        // Each layer begins with its switch.
        for layer in 0..2 * v - 1 {
            let Constraint::Zero(Expr::Mul(_, bit)) = &constraints[41 + 43 * layer] else {
                panic!("layer {layer} does not begin with a product");
            };
            let Expr::Mul(switch, _) = &**bit else {
                panic!("layer {layer} does not begin with its switch");
            };
            assert!(matches!(**switch, Expr::UpInt(c) if c == layout.int_switch + layer));
        }
    }
}

#[test]
fn a_serialized_proof_begins_with_its_exponent() {
    let proof = prove_memory_consistency(&Direct, &consistent_trace()).unwrap();
    let bytes = proof.to_bytes(&Direct).unwrap();
    assert_eq!(bytes[..4], (proof.num_vars() as u32).to_le_bytes());
    let restored = ZincMemoryProof::from_bytes(&Direct, &bytes).unwrap();
    assert_eq!(restored.num_vars(), proof.num_vars());
    assert!(restored == proof);
}
