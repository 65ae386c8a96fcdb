//! Memory accesses as an execution machine records them.

use crate::base::B256;
use vstd::prelude::*;

verus! {

/// What an access does to its cell.
#[derive(Clone, Copy, Debug, PartialEq, Eq, Structural)]
pub enum MemoryInstruction {
    /// Returns the value of a cell.
    Read,
    /// Sets the value of a cell.
    Write,
}

/// One memory access, in mathematical terms: the view of a [`TraceRecord`].
pub ghost struct Access {
    pub time: nat,
    pub stack_depth: nat,
    pub write: bool,
    pub address: nat,
    pub value: nat,
}

/// One record of an execution trace.
#[derive(Clone, Copy, Debug, PartialEq, Eq)]
pub struct TraceRecord {
    time_log: u64,
    stack_depth: u64,
    instruction: MemoryInstruction,
    address: B256,
    value: B256,
}

impl View for TraceRecord {
    type V = Access;

    closed spec fn view(&self) -> Access {
        Access {
            time: self.time_log as nat,
            stack_depth: self.stack_depth as nat,
            write: self.instruction is Write,
            address: self.address@,
            value: self.value@,
        }
    }
}

impl TraceRecord {
    /// The record of an access at time `time_log`.
    pub fn new(
        time_log: u64,
        stack_depth: u64,
        instruction: MemoryInstruction,
        address: B256,
        value: B256,
    ) -> (record: TraceRecord)
        ensures
            record@ == (Access {
                time: time_log as nat,
                stack_depth: stack_depth as nat,
                write: instruction is Write,
                address: address@,
                value: value@,
            }),
    {
        TraceRecord { time_log, stack_depth, instruction, address, value }
    }

    /// When the access happened.
    pub fn time_log(&self) -> (time: u64)
        ensures
            time == self@.time,
    {
        self.time_log
    }

    /// How deep the machine's stack was.
    pub fn stack_depth(&self) -> (depth: u64)
        ensures
            depth == self@.stack_depth,
    {
        self.stack_depth
    }

    /// Whether the access read or wrote.
    pub fn instruction(&self) -> (instruction: MemoryInstruction)
        ensures
            instruction == if self@.write {
                MemoryInstruction::Write
            } else {
                MemoryInstruction::Read
            },
    {
        self.instruction
    }

    /// The cell that was accessed.
    pub fn address(&self) -> (address: B256)
        ensures
            address@ == self@.address,
    {
        self.address
    }

    /// The value that was read or written.
    pub fn value(&self) -> (value: B256)
        ensures
            value@ == self@.value,
    {
        self.value
    }

    /// A record is determined by its access.
    pub proof fn records_are_determined_by_their_access(a: TraceRecord, b: TraceRecord)
        requires
            a@ == b@,
        ensures
            a == b,
    {
        B256::lemma_unique(a.address, b.address);
        B256::lemma_unique(a.value, b.value);
    }
}

/// The accesses of a trace.
pub open spec fn accesses(trace: Seq<TraceRecord>) -> Seq<Access> {
    Seq::new(trace.len(), |i: int| trace[i]@)
}

} // verus!
