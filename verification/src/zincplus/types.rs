//! Sizes of the commitments that a proof system makes to a trace.

use crate::zincplus::benes;
use crate::zincplus::layout;
use vstd::arithmetic::power2::*;
use vstd::prelude::*;

verus! {

/// Number of coefficients of a polynomial cell.
pub const D: usize = 32;

/// Number of coefficients of a binary cell once it is folded for commitment.
pub const QUARTER_D: usize = 8;

/// The number of evaluations that commitments cover.
#[derive(Clone, Copy, Debug, PartialEq, Eq, Structural)]
pub struct CommitmentSizes {
    /// Of a column.
    pub poly_size: usize,
    /// Of a binary column, whose cells are each folded into four.
    pub folded_poly_size: usize,
}

/// The sizes for traces of `2^v` rows.
pub open spec fn sizes_for(v: int) -> CommitmentSizes {
    CommitmentSizes {
        poly_size: pow2(v as nat) as usize,
        folded_poly_size: pow2((v + 2) as nat) as usize,
    }
}

/// The base-two logarithm of how many folded cells make up a binary cell.
fn folding_exponent() -> (e: usize)
    ensures
        e == 2,
{
    let factor: usize = D / QUARTER_D;
    let mut e: usize = 0;
    let mut covered: usize = 1;
    proof {
        lemma2_to64();
    }
    while covered < factor
        invariant
            factor == 4,
            e <= 2,
            covered == pow2(e as nat),
            pow2(0) == 1,
            pow2(1) == 2,
            pow2(2) == 4,
        decreases factor - covered,
    {
        proof {
            lemma_pow2_unfold((e + 1) as nat);
            if e == 2 {
                assert(covered == 4);
            }
        }
        covered = covered * 2;
        e = e + 1;
    }
    assert(e == 2);
    e
}

/// The commitment sizes for traces of `2^num_vars` rows. They depend on the row
/// count alone, so prover and verifier derive the same ones.
pub fn setup_params(num_vars: usize) -> (sizes: CommitmentSizes)
    requires
        layout::supported(num_vars as int),
    ensures
        sizes == sizes_for(num_vars as int),
        sizes.poly_size == pow2(num_vars as nat),
        sizes.folded_poly_size == 4 * pow2(num_vars as nat),
{
    proof {
        lemma2_to64();
        lemma_pow2_unfold((num_vars + 1) as nat);
        lemma_pow2_unfold((num_vars + 2) as nat);
    }
    CommitmentSizes {
        poly_size: benes::power_of_two(num_vars),
        folded_poly_size: benes::power_of_two(num_vars + folding_exponent()),
    }
}

} // verus!
