//! Field elements as plain values, and the field operations, which the proving
//! libraries compute.
//!
//! * The STARK field is winterfell's 128-bit prime field; an element is its
//!   canonical `u128`.
//! * The Groth16 field is the scalar field of BLS12-381 and the bulletproof
//!   field is the scalar field of Curve25519; an element of either is its
//!   canonical little-endian encoding in 32 bytes.
use crate::permutation::{fadd, fcube, fmul, fsub};
use curve25519_dalek_ng::scalar::Scalar as DalekScalar;
use ff::Field;
use vstd::prelude::*;
use winterfell::math::fields::f128::BaseElement;
use winterfell::math::{FieldElement, StarkField};

verus! {

/// The prime of winterfell's 128-bit field, `2^128 - 45 * 2^40 + 1`.
pub const F128_MODULUS: u128 = 340282366920938463463374557953744961537;

/// The order of the BLS12-381 scalar field.
pub open spec fn bls_modulus() -> int {
    (0x73eda753299d7d483339d80809a1d805 * 0x1_0000_0000_0000_0000_0000_0000_0000_0000
        + 0x53bda402fffe5bfeffffffff00000001) as int
}

/// The order of the Curve25519 prime-order group, `2^252 + 27742317777372353535851937790883648493`.
pub open spec fn dalek_modulus() -> int {
    (0x4000_0000_0000_0000_0000_0000_0000_0000 * 0x4000_0000_0000_0000_0000_0000_0000_0000
        + 27742317777372353535851937790883648493) as int
}

/// The number that a byte string encodes, least significant byte first.
pub open spec fn le_value(b: Seq<u8>) -> nat
    decreases b.len(),
{
    if b.len() == 0 {
        0
    } else {
        b[0] as nat + 256 * le_value(b.drop_first())
    }
}

/// A byte string whose bytes after the first are zero encodes its first byte.
pub proof fn lemma_le_value_low_byte(b: Seq<u8>)
    requires
        b.len() > 0,
        forall|i: int| 1 <= i < b.len() ==> b[i] == 0,
    ensures
        le_value(b) == b[0] as nat,
    decreases b.len(),
{
    let t = b.drop_first();
    if t.len() > 0 {
        assert(forall|i: int| 1 <= i < t.len() ==> t[i] == b[i + 1]);
        lemma_le_value_low_byte(t);
        assert(t[0] == b[1]);
    }
    assert(le_value(t) == 0);
}

/// Two byte strings of one length that encode one number are equal.
pub proof fn lemma_le_value_injective(a: Seq<u8>, b: Seq<u8>)
    requires
        a.len() == b.len(),
        le_value(a) == le_value(b),
    ensures
        a == b,
    decreases a.len(),
{
    if a.len() > 0 {
        let x = le_value(a.drop_first()) as int;
        let y = le_value(b.drop_first()) as int;
        let a0 = a[0] as int;
        let b0 = b[0] as int;
        assert(a0 == b0 && x == y) by (nonlinear_arith)
            requires
                a0 + 256 * x == b0 + 256 * y,
                0 <= a0 < 256,
                0 <= b0 < 256,
                x >= 0,
                y >= 0,
        ;
        lemma_le_value_injective(a.drop_first(), b.drop_first());
        assert(a =~= b) by {
            assert forall|i: int| 0 <= i < a.len() implies a[i] == b[i] by {
                if i > 0 {
                    assert(a[i] == a.drop_first()[i - 1]);
                    assert(b[i] == b.drop_first()[i - 1]);
                }
            }
        }
    }
}

/// The encoding of one in 32 little-endian bytes.
pub const ONE_BYTES: [u8; 32] = [
    1u8, 0u8, 0u8, 0u8, 0u8, 0u8, 0u8, 0u8, 0u8, 0u8, 0u8, 0u8, 0u8, 0u8, 0u8, 0u8,
    0u8, 0u8, 0u8, 0u8, 0u8, 0u8, 0u8, 0u8, 0u8, 0u8, 0u8, 0u8, 0u8, 0u8, 0u8, 0u8,
];

/// The encoding of one stands for one.
pub proof fn lemma_one_bytes()
    ensures
        le_value(ONE_BYTES@) == 1,
{
    lemma_le_value_low_byte(ONE_BYTES@);
}

// ---------------------------------------------------------------------------
// winterfell's 128-bit field

/// Relies on `Add` of winterfell's `f128::BaseElement`: the sum modulo the prime.
#[verifier::external_body]
pub(crate) fn f128_add(a: u128, b: u128) -> (r: u128)
    requires
        a < F128_MODULUS,
        b < F128_MODULUS,
    ensures
        r as int == fadd(F128_MODULUS as int, a as int, b as int),
{
    (BaseElement::new(a) + BaseElement::new(b)).as_int()
}

/// Relies on `Sub` of winterfell's `f128::BaseElement`: the difference modulo the prime.
#[verifier::external_body]
pub(crate) fn f128_sub(a: u128, b: u128) -> (r: u128)
    requires
        a < F128_MODULUS,
        b < F128_MODULUS,
    ensures
        r as int == fsub(F128_MODULUS as int, a as int, b as int),
{
    (BaseElement::new(a) - BaseElement::new(b)).as_int()
}

/// Relies on `FieldElement::cube` of winterfell's `f128::BaseElement`: the cube modulo the prime.
#[verifier::external_body]
pub(crate) fn f128_cube(a: u128) -> (r: u128)
    requires
        a < F128_MODULUS,
    ensures
        r as int == fcube(F128_MODULUS as int, a as int),
{
    BaseElement::new(a).cube().as_int()
}

// ---------------------------------------------------------------------------
// the BLS12-381 scalar field

/// An element of the BLS12-381 scalar field, by its little-endian encoding.
#[derive(Clone, Copy, Debug, PartialEq, Eq)]
pub struct BlsScalar {
    pub bytes: [u8; 32],
}

impl BlsScalar {
    /// The integer that the element stands for.
    pub open spec fn value(self) -> int {
        le_value(self.bytes@) as int
    }

    /// The encoding is canonical: the integer is below the field's order.
    pub open spec fn wf(self) -> bool {
        self.value() < bls_modulus()
    }

    /// An element is determined by the integer it stands for.
    pub proof fn lemma_determined(self, other: BlsScalar)
        requires
            self.value() == other.value(),
        ensures
            self == other,
    {
        lemma_le_value_injective(self.bytes@, other.bytes@);
        assert(self.bytes =~= other.bytes);
    }

    /// The element one.
    pub fn one() -> (r: BlsScalar)
        ensures
            r.wf(),
            r.value() == 1,
            r.bytes == ONE_BYTES,
    {
        let r = BlsScalar { bytes: ONE_BYTES };
        proof {
            lemma_le_value_low_byte(r.bytes@);
        }
        r
    }
}

/// Relies on `bls12_381::Scalar::from_bytes`, `Add` and `to_bytes`: the sum modulo
/// the field's order, encoded canonically.
#[verifier::external_body]
pub(crate) fn bls_add(a: &BlsScalar, b: &BlsScalar) -> (r: BlsScalar)
    requires
        a.wf(),
        b.wf(),
    ensures
        r.wf(),
        r.value() == fadd(bls_modulus(), a.value(), b.value()),
{
    let x = bls12_381::Scalar::from_bytes(&a.bytes).unwrap();
    let y = bls12_381::Scalar::from_bytes(&b.bytes).unwrap();
    BlsScalar { bytes: (x + y).to_bytes() }
}

/// Relies on `bls12_381::Scalar::from_bytes`, `Mul` and `to_bytes`: the product modulo
/// the field's order, encoded canonically.
#[verifier::external_body]
pub(crate) fn bls_mul(a: &BlsScalar, b: &BlsScalar) -> (r: BlsScalar)
    requires
        a.wf(),
        b.wf(),
    ensures
        r.wf(),
        r.value() == fmul(bls_modulus(), a.value(), b.value()),
{
    let x = bls12_381::Scalar::from_bytes(&a.bytes).unwrap();
    let y = bls12_381::Scalar::from_bytes(&b.bytes).unwrap();
    BlsScalar { bytes: (x * y).to_bytes() }
}

/// Relies on `bls12_381::Scalar::square`: the square modulo the field's order.
#[verifier::external_body]
pub(crate) fn bls_square(a: &BlsScalar) -> (r: BlsScalar)
    requires
        a.wf(),
    ensures
        r.wf(),
        r.value() == fmul(bls_modulus(), a.value(), a.value()),
{
    let x = bls12_381::Scalar::from_bytes(&a.bytes).unwrap();
    BlsScalar { bytes: x.square().to_bytes() }
}

/// Relies on `ff::Field::cube` for `bls12_381::Scalar`: the cube modulo the field's order.
#[verifier::external_body]
pub(crate) fn bls_cube(a: &BlsScalar) -> (r: BlsScalar)
    requires
        a.wf(),
    ensures
        r.wf(),
        r.value() == fcube(bls_modulus(), a.value()),
{
    let x = bls12_381::Scalar::from_bytes(&a.bytes).unwrap();
    BlsScalar { bytes: Field::cube(&x).to_bytes() }
}

/// Relies on `Neg` of `bls12_381::Scalar`: the additive inverse modulo the field's order.
#[verifier::external_body]
pub(crate) fn bls_neg(a: &BlsScalar) -> (r: BlsScalar)
    requires
        a.wf(),
    ensures
        r.wf(),
        r.value() == fsub(bls_modulus(), 0, a.value()),
{
    let x = bls12_381::Scalar::from_bytes(&a.bytes).unwrap();
    BlsScalar { bytes: (-x).to_bytes() }
}

// ---------------------------------------------------------------------------
// the Curve25519 scalar field

/// An element of the Curve25519 scalar field, by its little-endian encoding.
#[derive(Clone, Copy, Debug, PartialEq, Eq)]
pub struct DalekScalarBytes {
    pub bytes: [u8; 32],
}

impl DalekScalarBytes {
    /// The integer that the element stands for.
    pub open spec fn value(self) -> int {
        le_value(self.bytes@) as int
    }

    /// The encoding is canonical: the integer is below the group's order.
    pub open spec fn wf(self) -> bool {
        self.value() < dalek_modulus()
    }

    /// An element is determined by the integer it stands for.
    pub proof fn lemma_determined(self, other: DalekScalarBytes)
        requires
            self.value() == other.value(),
        ensures
            self == other,
    {
        lemma_le_value_injective(self.bytes@, other.bytes@);
        assert(self.bytes =~= other.bytes);
    }

    /// The element one.
    pub fn one() -> (r: DalekScalarBytes)
        ensures
            r.wf(),
            r.value() == 1,
            r.bytes == ONE_BYTES,
    {
        let r = DalekScalarBytes { bytes: ONE_BYTES };
        proof {
            lemma_le_value_low_byte(r.bytes@);
        }
        r
    }
}

/// Relies on `curve25519_dalek_ng::scalar::Scalar::from_canonical_bytes`, `Add` and
/// `to_bytes`: the sum modulo the group's order.
#[verifier::external_body]
pub(crate) fn dalek_add(a: &DalekScalarBytes, b: &DalekScalarBytes) -> (r: DalekScalarBytes)
    requires
        a.wf(),
        b.wf(),
    ensures
        r.wf(),
        r.value() == fadd(dalek_modulus(), a.value(), b.value()),
{
    let x = DalekScalar::from_canonical_bytes(a.bytes).unwrap();
    let y = DalekScalar::from_canonical_bytes(b.bytes).unwrap();
    DalekScalarBytes { bytes: (x + y).to_bytes() }
}

/// Relies on `curve25519_dalek_ng::scalar::Scalar::from_canonical_bytes`, `Mul` and
/// `to_bytes`: the product modulo the group's order.
#[verifier::external_body]
pub(crate) fn dalek_mul(a: &DalekScalarBytes, b: &DalekScalarBytes) -> (r: DalekScalarBytes)
    requires
        a.wf(),
        b.wf(),
    ensures
        r.wf(),
        r.value() == fmul(dalek_modulus(), a.value(), b.value()),
{
    let x = DalekScalar::from_canonical_bytes(a.bytes).unwrap();
    let y = DalekScalar::from_canonical_bytes(b.bytes).unwrap();
    DalekScalarBytes { bytes: (x * y).to_bytes() }
}

/// Relies on `Neg` of `curve25519_dalek_ng::scalar::Scalar`: the additive inverse
/// modulo the group's order.
#[verifier::external_body]
pub(crate) fn dalek_neg(a: &DalekScalarBytes) -> (r: DalekScalarBytes)
    requires
        a.wf(),
    ensures
        r.wf(),
        r.value() == fsub(dalek_modulus(), 0, a.value()),
{
    let x = DalekScalar::from_canonical_bytes(a.bytes).unwrap();
    DalekScalarBytes { bytes: (-x).to_bytes() }
}

} // verus!
