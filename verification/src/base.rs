//! The 256-bit words that addresses and values are made of.

use crate::digits;
use vstd::prelude::*;

verus! {

/// A 256-bit word, kept as its big-endian bytes. Its view is the number that
/// the bytes write.
#[derive(Clone, Copy, Debug, PartialEq, Eq)]
pub struct B256 {
    bytes: [u8; 32],
}

impl View for B256 {
    type V = nat;

    closed spec fn view(&self) -> nat {
        digits::bytes_value(self.bytes@)
    }
}

impl B256 {
    /// The bytes of the word, most significant first.
    pub closed spec fn be_bytes(&self) -> Seq<u8> {
        self.bytes@
    }

    /// A word is the number that its 32 bytes write.
    pub proof fn words_are_written_by_their_bytes(&self)
        ensures
            self.be_bytes().len() == 32,
            self@ == digits::bytes_value(self.be_bytes()),
    {
    }

    /// Words with equal values are equal.
    pub proof fn lemma_unique(a: B256, b: B256)
        requires
            a@ == b@,
        ensures
            a == b,
    {
        let c = digits::byte_digits(a.bytes@);
        let d = digits::byte_digits(b.bytes@);
        digits::lemma_positional_nonnegative(c, 0x100);
        digits::lemma_positional_nonnegative(d, 0x100);
        digits::lemma_digits_unique(c, d, 0x100);
        assert forall|i: int| 0 <= i < 32 implies a.bytes@[i] == b.bytes@[i] by {
            assert(c[i] == d[i]);
        }
        assert(a.bytes =~= b.bytes);
    }

    /// The big-endian bytes of the word.
    pub fn fixed_be_bytes(&self) -> (bytes: [u8; 32])
        ensures
            bytes@ == self.be_bytes(),
            digits::bytes_value(bytes@) == self@,
    {
        self.bytes
    }

    /// Whether the word is smaller than `other`.
    pub fn less_than(&self, other: &B256) -> (less: bool)
        ensures
            less == (self@ < other@),
    {
        let mut i: usize = 0;
        proof {
            digits::lemma_positional_nonnegative(digits::byte_digits(self.bytes@), 0x100);
            digits::lemma_positional_nonnegative(digits::byte_digits(other.bytes@), 0x100);
        }
        while i < 32
            invariant
                i <= 32,
                digits::positional(digits::byte_digits(self.bytes@), 0x100) >= 0,
                digits::positional(digits::byte_digits(other.bytes@), 0x100) >= 0,
                forall|j: int| 0 <= j < i ==> self.bytes@[j] == other.bytes@[j],
            decreases 32 - i,
        {
            let a: u8 = self.bytes[i];
            let b: u8 = other.bytes[i];
            if a < b {
                proof {
                    digits::lemma_first_difference(
                        digits::byte_digits(self.bytes@),
                        digits::byte_digits(other.bytes@),
                        0x100,
                        i as int,
                    );
                }
                return true;
            }
            if b < a {
                proof {
                    digits::lemma_first_difference(
                        digits::byte_digits(other.bytes@),
                        digits::byte_digits(self.bytes@),
                        0x100,
                        i as int,
                    );
                }
                return false;
            }
            i = i + 1;
        }
        assert(self.bytes@ =~= other.bytes@);
        false
    }

    /// Whether the word equals `other`.
    pub fn equals(&self, other: &B256) -> (same: bool)
        ensures
            same == (self@ == other@),
            same == (*self == *other),
    {
        let less: bool = self.less_than(other);
        let greater: bool = other.less_than(self);
        proof {
            if self@ == other@ {
                B256::lemma_unique(*self, *other);
            }
        }
        !less && !greater
    }
}

impl From<[u8; 32]> for B256 {
    fn from(bytes: [u8; 32]) -> (word: B256)
        ensures
            word.be_bytes() == bytes@,
            word@ == digits::bytes_value(bytes@),
    {
        B256 { bytes }
    }
}

impl vstd::std_specs::convert::FromSpecImpl<[u8; 32]> for B256 {
    open spec fn obeys_from_spec() -> bool {
        true
    }

    closed spec fn from_spec(bytes: [u8; 32]) -> B256 {
        B256 { bytes }
    }
}

/// A word of value `n`.
pub open spec fn word(n: nat) -> B256 {
    choose|w: B256| w@ == n
}

impl From<u64> for B256 {
    fn from(n: u64) -> (w: B256)
        ensures
            w@ == n,
    {
        let mut bytes: [u8; 32] = [0u8; 32];
        let mut unit: u64 = 0x100_0000_0000_0000;
        let mut i: usize = 0;
        proof {
            reveal_with_fuel(scale, 9);
            lemma_zero_bytes(bytes@.take(24));
            assert(scale(8) == 0x1_0000_0000_0000_0000);
            assert(n as int / 0x1_0000_0000_0000_0000 == 0);
        }
        while i < 8
            invariant
                i <= 8,
                i < 8 ==> unit == scale(7 - i),
                digits::positional(digits::byte_digits(bytes@.take(24 + i)), 0x100) == n as int
                    / scale(8 - i),
            decreases 8 - i,
        {
            let ghost before = bytes@;
            proof {
                lemma_scale(7 - i);
                if i < 7 {
                    lemma_scale(6 - i);
                }
                vstd::arithmetic::div_mod::lemma_div_denominator(n as int, unit as int, 0x100);
                assert(unit * 0x100 == scale(8 - i));
            }
            let q: u64 = n / unit;
            bytes[24 + i] = (q % 0x100) as u8;
            proof {
                let d = digits::byte_digits(bytes@.take(25 + i));
                assert(d.drop_last() =~= digits::byte_digits(before.take(24 + i)));
                assert(d.last() == q % 0x100);
                assert(q as int / 0x100 == n as int / scale(8 - i));
            }
            unit = unit / 0x100;
            i = i + 1;
        }
        proof {
            assert(bytes@.take(24 + i) =~= bytes@);
            assert(scale(8 - i) == 1);
            assert(n as int / 1 == n);
            assert(digits::bytes_value(bytes@) == n);
        }
        let w = B256 { bytes };
        proof {
            B256::lemma_unique(w, word(n as nat));
        }
        w
    }
}

impl vstd::std_specs::convert::FromSpecImpl<u64> for B256 {
    open spec fn obeys_from_spec() -> bool {
        true
    }

    open spec fn from_spec(n: u64) -> B256 {
        word(n as nat)
    }
}

/// `256^k`.
spec fn scale(k: int) -> int
    decreases k,
{
    if k <= 0 {
        1
    } else {
        0x100 * scale(k - 1)
    }
}

proof fn lemma_scale(k: int)
    requires
        k >= 0,
    ensures
        scale(k + 1) == 0x100 * scale(k),
        scale(k) >= 1,
    decreases k,
{
    if k > 0 {
        lemma_scale(k - 1);
    }
}

proof fn lemma_zero_bytes(bytes: Seq<u8>)
    requires
        forall|j: int| 0 <= j < bytes.len() ==> bytes[j] == 0,
    ensures
        digits::positional(digits::byte_digits(bytes), 0x100) == 0,
    decreases bytes.len(),
{
    if bytes.len() > 0 {
        lemma_zero_bytes(bytes.drop_last());
        assert(digits::byte_digits(bytes).drop_last() =~= digits::byte_digits(bytes.drop_last()));
    }
}

} // verus!
