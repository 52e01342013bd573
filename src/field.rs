//! Arithmetic in the Pallas scalar field, carried out by pasta's `Fp` and seen
//! here through canonical little-endian byte representations.

use ff::PrimeField;
use halo2_proofs::pasta::Fp;
use vstd::prelude::*;

verus! {

/// The order of the Pallas scalar field,
/// 0x40000000000000000000000000000000224698fc094cf91b992d30ed00000001.
pub open spec fn field_modulus() -> int {
    (0x4000_0000_0000_0000_0000_0000_0000_0000 * 0x1_0000_0000_0000_0000 * 0x1_0000_0000_0000_0000
        + 0x2246_98fc_094c_f91b_992d_30ed_0000_0001) as int
}

/// The number that a little-endian byte string denotes.
pub open spec fn le_value(bytes: Seq<u8>) -> nat
    decreases bytes.len(),
{
    if bytes.len() == 0 {
        0
    } else {
        bytes[0] as nat + 256 * le_value(bytes.drop_first())
    }
}

/// Relies on `PrimeField::from_u128` for `Fp`, and on `to_repr`, which gives the
/// canonical little-endian bytes: an integer below 2^128 lies below the modulus
/// and so stands for itself.
#[verifier::external_body]
pub(crate) fn field_from_u128(v: u128) -> (r: [u8; 32])
    ensures
        le_value(r@) == v,
{
    Fp::from_u128(v).to_repr()
}

/// Relies on field addition of `Fp`, with `from_repr` reading canonical
/// little-endian bytes (it fails only on a non-canonical input) and `to_repr`
/// writing them.
#[verifier::external_body]
pub(crate) fn field_add(a: [u8; 32], b: [u8; 32]) -> (r: [u8; 32])
    requires
        le_value(a@) < field_modulus(),
        le_value(b@) < field_modulus(),
    ensures
        le_value(r@) == (le_value(a@) + le_value(b@)) as int % field_modulus(),
{
    (Fp::from_repr(a).unwrap() + Fp::from_repr(b).unwrap()).to_repr()
}

/// Relies on field subtraction of `Fp`, read and written as in `field_add`.
#[verifier::external_body]
pub(crate) fn field_sub(a: [u8; 32], b: [u8; 32]) -> (r: [u8; 32])
    requires
        le_value(a@) < field_modulus(),
        le_value(b@) < field_modulus(),
    ensures
        le_value(r@) == (le_value(a@) - le_value(b@)) as int % field_modulus(),
{
    (Fp::from_repr(a).unwrap() - Fp::from_repr(b).unwrap()).to_repr()
}

/// Relies on field multiplication of `Fp`, read and written as in `field_add`.
#[verifier::external_body]
pub(crate) fn field_mul(a: [u8; 32], b: [u8; 32]) -> (r: [u8; 32])
    requires
        le_value(a@) < field_modulus(),
        le_value(b@) < field_modulus(),
    ensures
        le_value(r@) == (le_value(a@) * le_value(b@)) as int % field_modulus(),
{
    (Fp::from_repr(a).unwrap() * Fp::from_repr(b).unwrap()).to_repr()
}

/// A little-endian byte string denotes zero exactly when every byte is zero.
pub proof fn lemma_le_value_zero(bytes: Seq<u8>)
    ensures
        (le_value(bytes) == 0) <==> (forall|i: int| 0 <= i < bytes.len() ==> bytes[i] == 0),
    decreases bytes.len(),
{
    if bytes.len() > 0 {
        lemma_le_value_zero(bytes.drop_first());
        if le_value(bytes) == 0 {
            assert forall|i: int| 0 <= i < bytes.len() implies bytes[i] == 0 by {
                if i > 0 {
                    assert(bytes[i] == bytes.drop_first()[i - 1]);
                }
            }
        } else {
            if forall|i: int| 0 <= i < bytes.len() ==> bytes[i] == 0 {
                assert forall|i: int| 0 <= i < bytes.drop_first().len() implies bytes.drop_first()[i]
                    == 0 by {
                    assert(bytes.drop_first()[i] == bytes[i + 1]);
                }
            }
        }
    }
}

/// Whether a field element, given by its canonical bytes, is zero.
pub fn is_zero_repr(bytes: &[u8; 32]) -> (r: bool)
    ensures
        r == (le_value(bytes@) == 0),
{
    proof {
        lemma_le_value_zero(bytes@);
    }
    let mut i: usize = 0;
    while i < 32
        invariant
            0 <= i <= 32,
            bytes@.len() == 32,
            forall|j: int| 0 <= j < i ==> bytes@[j] == 0,
        decreases 32 - i,
    {
        if bytes[i] != 0 {
            proof {
                lemma_le_value_zero(bytes@);
                assert(bytes@[i as int] != 0);
            }
            return false;
        }
        i = i + 1;
    }
    true
}

} // verus!
