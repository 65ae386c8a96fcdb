use halo2_proofs::{
    circuit::{Layouter, SimpleFloorPlanner, Value},
    dev::MockProver,
    pasta::Fp,
    plonk::{Advice, Circuit, Column, ConstraintSystem, Error, Selector, TableColumn},
    poly::Rotation,
};
use std::cell::RefCell;
use zkmemory::backend::{
    checked, sort_trace_by_address_time, CircuitOutcome, ConsistencyCircuit, Halo2Backend,
    MemoryConsistencyBackend,
};
use zkmemory::base::B256;
use zkmemory::machine::{MemoryInstruction, TraceRecord};
use zkmemory::order::sort_order;

/// A circuit with a row per access. Its cells tell whether the access is out of
/// time order in the original trace and whether it disagrees with the one before
/// it in the sorted trace, and have to be zero. A table of 256 rows holds the
/// values that the cells may take.
#[derive(Clone, Debug)]
struct FlagCircuit {
    flags: Vec<[bool; 2]>,
}

impl FlagCircuit {
    fn new(input: &[TraceRecord], shuffle: &[TraceRecord]) -> Self {
        let flags = (0..input.len())
            .map(|i| {
                let late = match i {
                    0 => input[0].time_log() == 0,
                    _ => input[i - 1].time_log() < input[i].time_log(),
                };
                let same = i > 0
                    && shuffle[i - 1].address() == shuffle[i].address()
                    && shuffle[i - 1].value() == shuffle[i].value();
                let agrees = shuffle[i].instruction() == MemoryInstruction::Write || same;
                [!late, !agrees]
            })
            .collect();
        FlagCircuit { flags }
    }
}

impl Circuit<Fp> for FlagCircuit {
    type Config = (Selector, [Column<Advice>; 2], TableColumn);
    type FloorPlanner = SimpleFloorPlanner;

    fn without_witnesses(&self) -> Self {
        FlagCircuit { flags: vec![] }
    }

    fn configure(meta: &mut ConstraintSystem<Fp>) -> Self::Config {
        let selector = meta.selector();
        let flags = [meta.advice_column(), meta.advice_column()];
        let table = meta.lookup_table_column();
        meta.create_gate("flags are zero", |meta| {
            let selector = meta.query_selector(selector);
            flags.map(|flag| selector.clone() * meta.query_advice(flag, Rotation::cur()))
        });
        for flag in flags {
            meta.lookup(|meta| vec![(meta.query_advice(flag, Rotation::cur()), table)]);
        }
        (selector, flags, table)
    }

    fn synthesize(
        &self,
        (selector, columns, table): Self::Config,
        mut layouter: impl Layouter<Fp>,
    ) -> Result<(), Error> {
        layouter.assign_table(
            || "bytes",
            |mut bytes| {
                for i in 0..256 {
                    let value = || Value::known(Fp::from(i as u64));
                    bytes.assign_cell(|| "byte", table, i, value)?;
                }
                Ok(())
            },
        )?;
        layouter.assign_region(
            || "accesses",
            |mut region| {
                for (row, flags) in self.flags.iter().enumerate() {
                    selector.enable(&mut region, row)?;
                    for (&column, &flag) in columns.iter().zip(flags) {
                        let value = || Value::known(Fp::from(u64::from(flag)));
                        region.assign_advice(|| "flag", column, row, value)?;
                    }
                }
                Ok(())
            },
        )
    }
}

/// The circuit under the mock prover.
struct Mocked;

impl ConsistencyCircuit for Mocked {
    fn run(&self, k: u32, input: &[TraceRecord], shuffle: &[TraceRecord]) -> CircuitOutcome {
        match MockProver::run(k, &FlagCircuit::new(input, shuffle), vec![]) {
            Err(e) => CircuitOutcome::NotLaidOut(e.to_string()),
            Ok(prover) => match prover.verify() {
                Ok(()) => CircuitOutcome::Satisfied,
                Err(failures) => CircuitOutcome::Failed(format!("{failures:?}")),
            },
        }
    }
}

fn backend(k: u32) -> Halo2Backend<Mocked> {
    Halo2Backend { k, circuit: Mocked }
}

/// A circuit that keeps what it is handed and gives a fixed outcome.
struct Recording {
    outcome: CircuitOutcome,
    seen: RefCell<Vec<(u32, Vec<u64>, Vec<u64>)>>,
}

impl ConsistencyCircuit for Recording {
    fn run(&self, k: u32, input: &[TraceRecord], shuffle: &[TraceRecord]) -> CircuitOutcome {
        let times = |records: &[TraceRecord]| records.iter().map(|r| r.time_log()).collect();
        self.seen.borrow_mut().push((k, times(input), times(shuffle)));
        self.outcome.clone()
    }
}

fn recording(k: u32, outcome: CircuitOutcome) -> Halo2Backend<Recording> {
    Halo2Backend { k, circuit: Recording { outcome, seen: RefCell::new(vec![]) } }
}

fn sample_trace() -> Vec<TraceRecord> {
    vec![
        TraceRecord::new(0, 0, MemoryInstruction::Write, B256::from(0u64), B256::from(7u64)),
        TraceRecord::new(1, 0, MemoryInstruction::Write, B256::from(32u64), B256::from(8u64)),
        TraceRecord::new(2, 0, MemoryInstruction::Read, B256::from(0u64), B256::from(7u64)),
        TraceRecord::new(3, 0, MemoryInstruction::Read, B256::from(32u64), B256::from(8u64)),
    ]
}

#[test]
fn test_halo2_backend_accepts_consistent_trace() {
    let backend = Halo2Backend { k: 10, circuit: Mocked };
    let proof = backend.prove(&sample_trace()).expect("consistent trace proves");
    backend.verify(&proof).expect("attestation verifies");
}

#[test]
fn test_halo2_backend_rejects_inconsistent_trace() {
    let mut trace = sample_trace();
    // The read at time 2 returns a value that was never written.
    trace[2] =
        TraceRecord::new(2, 0, MemoryInstruction::Read, B256::from(0u64), B256::from(9u64));
    let backend = Halo2Backend { k: 10, circuit: Mocked };
    assert!(backend.prove(&trace).is_err());
}

#[test]
fn an_attestation_is_verified_by_a_backend_of_another_size() {
    let proof = backend(10).prove(&sample_trace()).unwrap();
    assert_eq!(backend(1).verify(&proof), Ok(()));
}

#[test]
fn a_circuit_that_cannot_be_laid_out_is_reported() {
    // Neither the trace nor the table fits eight rows, and the table does not
    // fit the usable ones of 256.
    for k in [3, 8] {
        let text = format!(
            "synthesis: k = {k} is too small for the given circuit. Try using a larger value of k"
        );
        assert_eq!(backend(k).check(&sample_trace()), Err(text.clone()));
        assert_eq!(backend(k).prove(&sample_trace()).err(), Some(text));
    }
    assert_eq!(backend(9).check(&sample_trace()), Ok(()));
}

#[test]
fn failing_constraints_are_reported() {
    let mut trace = sample_trace();
    trace.swap(2, 3);
    let disorder = backend(10).check(&trace).unwrap_err();
    assert!(disorder.starts_with("constraint check: [Constraint"));
    assert!(backend(10).check(&sample_trace()[1..]).is_err());
    let unwritten =
        [TraceRecord::new(0, 0, MemoryInstruction::Read, B256::from(0u64), B256::from(0u64))];
    assert!(backend(10).check(&unwritten).is_err());
}

#[test]
fn the_circuit_is_handed_the_trace_and_its_sorted_form() {
    let trace = sample_trace();
    let accepting = recording(7, CircuitOutcome::Satisfied);
    let proof = accepting.prove(&trace).unwrap();
    let other = recording(20, CircuitOutcome::Satisfied);
    assert_eq!(other.verify(&proof), Ok(()));
    let handed = vec![(7, vec![0, 1, 2, 3], vec![0, 2, 1, 3])];
    assert_eq!(*accepting.circuit.seen.borrow(), handed);
    // A verification runs the check again, at the size of the attestation.
    assert_eq!(*other.circuit.seen.borrow(), handed);
}

#[test]
fn outcomes_of_the_circuit_are_told() {
    let trace = sample_trace();
    let unlaid = CircuitOutcome::NotLaidOut("no room".to_string());
    let failed = CircuitOutcome::Failed("[]".to_string());
    assert_eq!(checked(CircuitOutcome::Satisfied), Ok(()));
    assert_eq!(checked(unlaid.clone()), Err("synthesis: no room".to_string()));
    assert_eq!(checked(failed.clone()), Err("constraint check: []".to_string()));
    assert_eq!(recording(5, unlaid).check(&trace), Err("synthesis: no room".to_string()));
    let refusing = recording(5, failed);
    assert_eq!(refusing.prove(&trace).err(), Some("constraint check: []".to_string()));
    let proof = backend(10).prove(&trace).unwrap();
    assert_eq!(refusing.verify(&proof), Err("constraint check: []".to_string()));
}

#[test]
fn a_record_holds_what_it_was_made_of() {
    let record = TraceRecord::new(
        u64::MAX,
        5,
        MemoryInstruction::Read,
        B256::from(12u64),
        B256::from([9u8; 32]),
    );
    assert_eq!(record.time_log(), u64::MAX);
    assert_eq!(record.stack_depth(), 5);
    assert_eq!(record.instruction(), MemoryInstruction::Read);
    assert_eq!(record.address(), B256::from(12u64));
    assert_eq!(record.value().fixed_be_bytes(), [9u8; 32]);
}

#[test]
fn words_are_big_endian_numbers() {
    let mut bytes = [0u8; 32];
    bytes[24..].copy_from_slice(&0x0102_0304_0506_0708u64.to_be_bytes());
    assert_eq!(B256::from(0x0102_0304_0506_0708u64).fixed_be_bytes(), bytes);
    assert_eq!(B256::from(bytes), B256::from(0x0102_0304_0506_0708u64));
    let mut high = [0u8; 32];
    high[0] = 1;
    assert!(B256::from(u64::MAX).less_than(&B256::from(high)));
    assert!(!B256::from(high).less_than(&B256::from(u64::MAX)));
    assert!(!B256::from(3u64).less_than(&B256::from(3u64)));
    assert!(B256::from(3u64).equals(&B256::from(3u64)));
    assert!(!B256::from(3u64).equals(&B256::from(4u64)));
}

fn at(time_log: u64, address: u64) -> TraceRecord {
    TraceRecord::new(
        time_log,
        0,
        MemoryInstruction::Write,
        B256::from(address),
        B256::from(time_log),
    )
}

#[test]
fn a_trace_is_sorted_by_address_and_then_by_time() {
    let trace = [at(0, 7), at(1, 3), at(2, 7), at(3, 0), at(4, 3)];
    assert_eq!(sort_order(&trace), [3, 1, 4, 0, 2]);
    let sorted = sort_trace_by_address_time(&trace);
    let times: Vec<u64> = sorted.iter().map(|record| record.time_log()).collect();
    assert_eq!(times, [3, 1, 4, 0, 2]);
}

#[test]
fn records_with_equal_keys_stay_in_order() {
    let trace = [at(5, 1), at(5, 0), at(5, 1), at(5, 0), at(4, 1)];
    assert_eq!(sort_order(&trace), [1, 3, 4, 0, 2]);
    assert!(sort_order(&[]).is_empty());
}
