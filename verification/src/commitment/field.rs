//! The base field of the Pallas curve, and its Poseidon hash.

use crate::base::B256;
use vstd::prelude::*;

verus! {

/// The modulus of the field.
pub open spec fn modulus() -> nat {
    0x40000000000000000000000000000000224698fc094cf91b992d30ed00000001nat
}

/// The Poseidon hash of two field elements, with the 128-bit security
/// parameters for width three and rate two, as a number below the modulus.
pub uninterp spec fn poseidon_of(left: nat, right: nat) -> nat;

/// A field element. Its view is the number below the modulus that it stands for.
#[derive(Clone, Copy, Debug, PartialEq, Eq)]
pub struct Fp {
    word: B256,
}

impl View for Fp {
    type V = nat;

    closed spec fn view(&self) -> nat {
        self.word@
    }
}

/// The sum of two field elements: `pasta_curves::Fp` addition, between the
/// 32-byte encodings of `ff::PrimeField::from_repr` and `to_repr`, which are
/// little-endian. `from_repr` takes numbers below the modulus; the result is
/// the sum modulo it.
#[verifier::external_body]
fn field_sum(a: &B256, b: &B256) -> (c: B256)
    requires
        a@ < modulus(),
        b@ < modulus(),
    ensures
        c@ == (a@ + b@) % modulus(),
{
    let (mut x, mut y) = (a.fixed_be_bytes(), b.fixed_be_bytes());
    x.reverse();
    y.reverse();
    let left = <pasta_curves::Fp as ff::PrimeField>::from_repr(x).unwrap();
    let right = <pasta_curves::Fp as ff::PrimeField>::from_repr(y).unwrap();
    let mut z = <pasta_curves::Fp as ff::PrimeField>::to_repr(&(left + right));
    z.reverse();
    B256::from(z)
}

/// The difference of two field elements: `pasta_curves::Fp` subtraction,
/// between the same encodings. The result is the difference modulo the
/// modulus.
#[verifier::external_body]
fn field_difference(a: &B256, b: &B256) -> (c: B256)
    requires
        a@ < modulus(),
        b@ < modulus(),
    ensures
        c@ == (a@ - b@) % (modulus() as int),
{
    let (mut x, mut y) = (a.fixed_be_bytes(), b.fixed_be_bytes());
    x.reverse();
    y.reverse();
    let left = <pasta_curves::Fp as ff::PrimeField>::from_repr(x).unwrap();
    let right = <pasta_curves::Fp as ff::PrimeField>::from_repr(y).unwrap();
    let mut z = <pasta_curves::Fp as ff::PrimeField>::to_repr(&(left - right));
    z.reverse();
    B256::from(z)
}

/// The product of two field elements: `pasta_curves::Fp` multiplication,
/// between the same encodings. The result is the product modulo the modulus.
#[verifier::external_body]
fn field_product(a: &B256, b: &B256) -> (c: B256)
    requires
        a@ < modulus(),
        b@ < modulus(),
    ensures
        c@ == (a@ * b@) % modulus(),
{
    let (mut x, mut y) = (a.fixed_be_bytes(), b.fixed_be_bytes());
    x.reverse();
    y.reverse();
    let left = <pasta_curves::Fp as ff::PrimeField>::from_repr(x).unwrap();
    let right = <pasta_curves::Fp as ff::PrimeField>::from_repr(y).unwrap();
    let mut z = <pasta_curves::Fp as ff::PrimeField>::to_repr(&(left * right));
    z.reverse();
    B256::from(z)
}

/// The Poseidon hash of two field elements: `halo2_poseidon::Hash` over
/// `pasta_curves::Fp` with `P128Pow5T3` and `ConstantLength<2>`, between the
/// same encodings. The result is a function of the two elements, named
/// [`poseidon_of`], and a field element.
#[verifier::external_body]
fn poseidon(left: &B256, right: &B256) -> (digest: B256)
    requires
        left@ < modulus(),
        right@ < modulus(),
    ensures
        digest@ == poseidon_of(left@, right@),
        digest@ < modulus(),
{
    let (mut x, mut y) = (left.fixed_be_bytes(), right.fixed_be_bytes());
    x.reverse();
    y.reverse();
    let message = [
        <pasta_curves::Fp as ff::PrimeField>::from_repr(x).unwrap(),
        <pasta_curves::Fp as ff::PrimeField>::from_repr(y).unwrap(),
    ];
    let digest = halo2_poseidon::Hash::<
        _, halo2_poseidon::P128Pow5T3, halo2_poseidon::ConstantLength<2>, 3, 2,
    >::init().hash(message);
    let mut z = <pasta_curves::Fp as ff::PrimeField>::to_repr(&digest);
    z.reverse();
    B256::from(z)
}

impl Fp {
    /// The value is below the modulus.
    #[verifier::type_invariant]
    pub open spec fn is_reduced(self) -> bool {
        self@ < modulus()
    }

    /// A field element is below the modulus.
    pub fn value(&self) -> (word: B256)
        ensures
            word@ == self@,
            word@ < modulus(),
    {
        proof {
            use_type_invariant(self);
        }
        self.word
    }

    /// The element that a number stands for.
    pub fn from_u64(n: u64) -> (x: Fp)
        ensures
            x@ == n,
    {
        Fp { word: B256::from(n) }
    }

    /// The element zero.
    pub fn zero() -> (x: Fp)
        ensures
            x@ == 0,
    {
        Fp::from_u64(0)
    }

    /// The element one.
    pub fn one() -> (x: Fp)
        ensures
            x@ == 1,
    {
        Fp::from_u64(1)
    }

    /// Whether two elements are equal.
    pub fn equals(&self, other: &Fp) -> (same: bool)
        ensures
            same == (self@ == other@),
    {
        self.word.equals(&other.word)
    }

    /// Whether the element is zero.
    pub fn is_zero(&self) -> (zero: bool)
        ensures
            zero == (self@ == 0),
    {
        self.equals(&Fp::zero())
    }

    /// The sum.
    pub fn plus(&self, other: &Fp) -> (x: Fp)
        ensures
            x@ == (self@ + other@) % modulus(),
    {
        let word = field_sum(&self.value(), &other.value());
        Fp { word }
    }

    /// The difference.
    pub fn minus(&self, other: &Fp) -> (x: Fp)
        ensures
            x@ == (self@ - other@) % (modulus() as int),
    {
        let word = field_difference(&self.value(), &other.value());
        Fp { word }
    }

    /// The product.
    pub fn times(&self, other: &Fp) -> (x: Fp)
        ensures
            x@ == (self@ * other@) % modulus(),
    {
        let word = field_product(&self.value(), &other.value());
        Fp { word }
    }

    /// The Poseidon hash of two elements.
    pub fn hash(left: &Fp, right: &Fp) -> (digest: Fp)
        ensures
            digest@ == poseidon_of(left@, right@),
    {
        let word = poseidon(&left.value(), &right.value());
        Fp { word }
    }
}

} // verus!
