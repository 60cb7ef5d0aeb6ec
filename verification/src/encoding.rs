//! Scalar field elements and their canonical byte encoding.

use ark_bls12_381::Fr;
use ark_ff::PrimeField;
use ark_serialize::CanonicalSerialize;
use vstd::prelude::*;

verus! {

/// Number of bytes in the canonical encoding of a scalar.
pub const ENCODED_LEN: usize = 32;

/// An element of the BLS12-381 scalar field, held as a 256-bit integer in
/// little-endian bytes. The integer stands for its residue modulo the order
/// of the field, so every value of this type is a scalar.
#[derive(Clone, Copy, Debug)]
pub struct Scalar {
    pub le_bytes: [u8; 32],
}

impl View for Scalar {
    type V = Seq<u8>;

    open spec fn view(&self) -> Seq<u8> {
        self.le_bytes@
    }
}

/// The order of the scalar field, a prime of 255 bits.
pub open spec fn scalar_order() -> nat {
    let high: nat = 0x73eda753299d7d483339d80809a1d805;
    let low: nat = 0x53bda402fffe5bfeffffffff00000001;
    high * 0x1_0000_0000_0000_0000 * 0x1_0000_0000_0000_0000 + low
}

/// The integer that `bytes` hold, least significant byte first.
pub open spec fn le_value(bytes: Seq<u8>) -> nat
    decreases bytes.len(),
{
    if bytes.len() == 0 {
        0
    } else {
        bytes[0] as nat + 256 * le_value(bytes.drop_first())
    }
}

/// The lowest `len` bytes of `value`, least significant byte first.
pub open spec fn le_bytes_of(value: nat, len: nat) -> Seq<u8>
    decreases len,
{
    if len == 0 {
        Seq::empty()
    } else {
        seq![(value % 256) as u8] + le_bytes_of(value / 256, (len - 1) as nat)
    }
}

/// The canonical uncompressed encoding of the scalar that the little-endian
/// integer `le_bytes` stands for: its residue modulo the field order, as 32
/// little-endian bytes.
pub open spec fn canonical_bytes(le_bytes: Seq<u8>) -> Seq<u8> {
    le_bytes_of(le_value(le_bytes) % scalar_order(), ENCODED_LEN as nat)
}

/// The encodings of a sequence of scalars, in order.
pub open spec fn encodings(values: Seq<Scalar>) -> Seq<Seq<u8>> {
    Seq::new(values.len(), |i: int| canonical_bytes(values[i]@))
}

/// Serializes `value` into a fresh buffer.
///
/// Trusted: turns the integer into an `ark_bls12_381::Fr` with
/// `PrimeField::from_le_bytes_mod_order`, which reduces it modulo the field
/// order, and writes that element to an empty vector with
/// `CanonicalSerialize::serialize_uncompressed`. The contract claims that
/// what is written is the reduced integer in 32 little-endian bytes; writing
/// a field element to a vector does not fail.
#[verifier::external_body]
pub(crate) fn serialize_scalar(value: &Scalar) -> (bytes: Vec<u8>)
    ensures
        bytes@ == canonical_bytes(value@),
{
    let element = Fr::from_le_bytes_mod_order(&value.le_bytes);
    let mut bytes = Vec::new();
    element.serialize_uncompressed(&mut bytes).unwrap();
    bytes
}

} // verus!
