//! The crypto helpers of the surrounding project: Pedersen value
//! commitments on the Pallas curve and a hash-to-scalar, called through the
//! pasta_curves and blake2b_simd crates, plus a verified little-endian bit
//! decomposition.

use vstd::prelude::*;

verus! {

#[verifier::external_type_specification]
#[verifier::external_body]
pub struct ExPallasScalar(pasta_curves::pallas::Scalar);

#[verifier::external_type_specification]
#[verifier::external_body]
pub struct ExPallasBase(pasta_curves::pallas::Base);

#[verifier::external_type_specification]
#[verifier::external_body]
pub struct ExPallasPoint(pasta_curves::pallas::Point);

/// The scalar that hashing `(a, b)` under `persona` yields; it depends on
/// the three byte strings alone.
pub uninterp spec fn hash_scalar_of(persona: Seq<u8>, a: Seq<u8>, b: Seq<u8>) -> pasta_curves::pallas::Scalar;

/// The base-field element standing for a small integer; it depends on the
/// integer alone.
pub uninterp spec fn base_of_u64(v: u64) -> pasta_curves::pallas::Base;

/// Relies on blake2b_simd (a 64-byte personalized digest of `a` then `b`)
/// and on pasta_curves' `Scalar::from_uniform_bytes`: both are
/// deterministic in the inputs. blake2b_simd panics on a personalization
/// longer than 16 bytes, which the precondition rules out.
#[verifier::external_body]
pub fn hash_to_scalar(persona: &[u8], a: &[u8], b: &[u8]) -> (r: pasta_curves::pallas::Scalar)
    requires
        persona@.len() <= 16,
    ensures
        r == hash_scalar_of(persona@, a@, b@),
{
    let mut hasher = blake2b_simd::Params::new().hash_length(64).personal(persona).to_state();
    hasher.update(a);
    hasher.update(b);
    let ret = hasher.finalize();
    <pasta_curves::pallas::Scalar as pasta_curves::group::ff::FromUniformBytes<64>>::from_uniform_bytes(ret.as_array())
}

/// Relies on pasta_curves' `Base::from(u64)`: the canonical embedding of a
/// small integer, deterministic in the integer.
#[verifier::external_body]
pub fn base_from_u64(value: u64) -> (r: pasta_curves::pallas::Base)
    ensures
        r == base_of_u64(value),
{
    pasta_curves::pallas::Base::from(value)
}

/// Converts a Pallas base-field element to a scalar with the same
/// representation. Relies on pasta_curves' `to_repr`/`from_repr`; the
/// conversion needs no modular reduction because the base field is smaller
/// than the scalar field, so `from_repr` always succeeds.
#[verifier::external_body]
pub fn mod_r_p(x: pasta_curves::pallas::Base) -> pasta_curves::pallas::Scalar {
    <pasta_curves::pallas::Scalar as pasta_curves::group::ff::PrimeField>::from_repr(
        pasta_curves::group::ff::PrimeField::to_repr(&x),
    ).unwrap()
}

/// The Pedersen commitment `V * value + R * blind` over the Orchard value
/// commitment generators. Relies on pasta_curves' `hash_to_curve` and the
/// curve arithmetic of the pallas group.
#[verifier::external_body]
#[allow(non_snake_case)]
pub fn pedersen_commitment_scalar(
    value: pasta_curves::pallas::Scalar,
    blind: pasta_curves::pallas::Scalar,
) -> pasta_curves::pallas::Point {
    let hasher = <pasta_curves::pallas::Point as pasta_curves::arithmetic::CurveExt>::hash_to_curve(
        "z.cash:Orchard-cv",
    );
    let V = hasher(b"v");
    let R = hasher(b"r");
    V * value + R * blind
}

/// Commits to an integer value: embeds it in the base field, carries it
/// over to the scalar field, and forms the Pedersen commitment.
pub fn pedersen_commitment_u64(
    value: u64,
    blind: pasta_curves::pallas::Scalar,
) -> pasta_curves::pallas::Point {
    pedersen_commitment_scalar(mod_r_p(base_from_u64(value)), blind)
}

/// The sequence of bits of `value` in little-endian order, `num_bits` of
/// them; bits at position 64 and above do not exist, so `num_bits` is
/// capped there.
pub fn i2lebsp(num_bits: usize, value: u64) -> (r: Vec<bool>)
    requires
        num_bits <= 64,
    ensures
        r@.len() == num_bits,
        forall|i: int| 0 <= i < num_bits ==> r@[i] == (value & (1u64 << i) != 0),
{
    let mut r: Vec<bool> = Vec::new();
    let mut i: usize = 0;
    while i < num_bits
        invariant
            num_bits <= 64,
            i <= num_bits,
            r@.len() == i,
            forall|j: int| 0 <= j < i ==> r@[j] == (value & (1u64 << j) != 0),
        decreases num_bits - i,
    {
        r.push(value & (1u64 << (i as u64)) != 0);
        i = i + 1;
    }
    r
}

} // verus!
