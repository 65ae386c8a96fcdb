//! Trace records in 32-bit limbs.

use crate::digits;
use crate::machine::{Access, MemoryInstruction, TraceRecord};
use crate::zincplus::layout::{
    NUM_ADDR_LIMBS, NUM_LEX_LIMBS, NUM_STACK_DEPTH_LIMBS, NUM_TIME_LIMBS, NUM_VALUE_LIMBS,
    PAYLOAD_CELLS, PL_ADDR, PL_INSTR, PL_STACK_DEPTH, PL_TIME, PL_VALUE,
};
use crate::zincplus::trace;
use vstd::prelude::*;

verus! {

/// The limbs write the access, with an instruction cell of zero or one.
pub open spec fn encodes(limbs: Seq<u32>, a: Access) -> bool {
    &&& limbs.len() == PAYLOAD_CELLS
    &&& trace::access_of(limbs) == a
    &&& limbs[PL_INSTR as int] == if a.write {
        1u32
    } else {
        0
    }
}

/// An access is written by one sequence of limbs only.
pub proof fn lemma_encoding_unique(x: Seq<u32>, y: Seq<u32>, a: Access)
    requires
        encodes(x, a),
        encodes(y, a),
    ensures
        x == y,
{
    digits::lemma_limbs_unique(x.subrange(0, 8), y.subrange(0, 8));
    digits::lemma_limbs_unique(x.subrange(8, 10), y.subrange(8, 10));
    digits::lemma_limbs_unique(x.subrange(10, 12), y.subrange(10, 12));
    digits::lemma_limbs_unique(x.subrange(12, 20), y.subrange(12, 20));
    assert forall|p: int| 0 <= p < 21 implies x[p] == y[p] by {
        if p < 8 {
            assert(x.subrange(0, 8)[p] == y.subrange(0, 8)[p]);
        } else if p < 10 {
            assert(x.subrange(8, 10)[p - 8] == y.subrange(8, 10)[p - 8]);
        } else if p < 12 {
            assert(x.subrange(10, 12)[p - 10] == y.subrange(10, 12)[p - 10]);
        } else if p < 20 {
            assert(x.subrange(12, 20)[p - 12] == y.subrange(12, 20)[p - 12]);
        }
    }
    assert(x =~= y);
}

/// One trace record in 32-bit limbs, most significant limb first: the payload
/// that is routed through the network.
#[derive(Clone, Debug)]
pub struct RowLimbs {
    addr: [u32; NUM_ADDR_LIMBS],
    time: [u32; NUM_TIME_LIMBS],
    stack_depth: [u32; NUM_STACK_DEPTH_LIMBS],
    value: [u32; NUM_VALUE_LIMBS],
    instr: u32,
}

impl View for RowLimbs {
    type V = Seq<u32>;

    closed spec fn view(&self) -> Seq<u32> {
        Seq::new(
            PAYLOAD_CELLS as nat,
            |p: int|
                if p < 8 {
                    self.addr@[p]
                } else if p < 10 {
                    self.time@[p - 8]
                } else if p < 12 {
                    self.stack_depth@[p - 10]
                } else if p < 20 {
                    self.value@[p - 12]
                } else {
                    self.instr
                },
        )
    }
}

impl RowLimbs {
    /// The limbs of a record.
    pub fn from_record(record: &TraceRecord) -> (row: RowLimbs)
        ensures
            encodes(row@, record@),
    {
        let addr = be_bytes_to_limbs(&record.address().fixed_be_bytes());
        let value = be_bytes_to_limbs(&record.value().fixed_be_bytes());
        let time = split(record.time_log());
        let stack_depth = split(record.stack_depth());
        let instr: u32 = match record.instruction() {
            MemoryInstruction::Write => 1,
            MemoryInstruction::Read => 0,
        };
        let row = RowLimbs { addr, time, stack_depth, value, instr };
        proof {
            assert(row@.subrange(0, 8) =~= addr@);
            assert(row@.subrange(8, 10) =~= time@);
            assert(row@.subrange(10, 12) =~= stack_depth@);
            assert(row@.subrange(12, 20) =~= value@);
        }
        row
    }

    /// A record has [`PAYLOAD_CELLS`] limbs.
    pub proof fn lemma_len(&self)
        ensures
            self@.len() == PAYLOAD_CELLS,
    {
    }

    /// Payload cell `p`.
    pub fn payload(&self, p: usize) -> (limb: u32)
        requires
            p < PAYLOAD_CELLS,
        ensures
            limb == self@[p as int],
    {
        if p < PL_TIME {
            self.addr[p - PL_ADDR]
        } else if p < PL_STACK_DEPTH {
            self.time[p - PL_TIME]
        } else if p < PL_VALUE {
            self.stack_depth[p - PL_STACK_DEPTH]
        } else if p < PL_INSTR {
            self.value[p - PL_VALUE]
        } else {
            self.instr
        }
    }

    /// Limb `j` of the comparison key: address, then time.
    pub fn lex_limb(&self, j: usize) -> (limb: u32)
        requires
            j < NUM_LEX_LIMBS,
        ensures
            limb == self@[j as int],
    {
        self.payload(PL_ADDR + j)
    }
}

/// The limbs of 32 big-endian bytes.
fn be_bytes_to_limbs(bytes: &[u8; 32]) -> (limbs: [u32; 8])
    ensures
        digits::limbs_value(limbs@) == digits::bytes_value(bytes@),
{
    let mut limbs: [u32; 8] = [0u32; 8];
    let mut j: usize = 0;
    while j < 8
        invariant
            j <= 8,
            forall|k: int| 0 <= k < j ==> #[trigger] limbs@[k] == digits::limb_of_bytes(bytes@, k),
        decreases 8 - j,
    {
        let a: u32 = bytes[4 * j] as u32;
        let b: u32 = bytes[4 * j + 1] as u32;
        let c: u32 = bytes[4 * j + 2] as u32;
        let d: u32 = bytes[4 * j + 3] as u32;
        limbs[j] = a * 0x100_0000 + b * 0x1_0000 + c * 0x100 + d;
        j = j + 1;
    }
    proof {
        digits::lemma_bytes_regrouped(bytes@, limbs@);
    }
    limbs
}

/// The two limbs of a 64-bit number.
fn split(n: u64) -> (limbs: [u32; 2])
    ensures
        digits::limbs_value(limbs@) == n,
{
    let hi: u32 = (n / 0x1_0000_0000) as u32;
    let lo: u32 = (n % 0x1_0000_0000) as u32;
    let limbs: [u32; 2] = [hi, lo];
    proof {
        digits::lemma_two_limbs(hi, lo);
        assert(limbs@ =~= seq![hi, lo]);
    }
    limbs
}

} // verus!
