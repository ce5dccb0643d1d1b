//! The hash function and the curve arithmetic this library relies on, over the
//! canonical 32-byte encodings of scalars and points.
use vstd::prelude::*;
use crate::base58::power;
use crate::out_proof::{group_order, is_canonical_scalar, is_point_encoding, le_value};

verus! {

/// The Keccak-256 digest of `data`.
pub uninterp spec fn keccak_of(data: Seq<u8>) -> Seq<u8>;

/// The encoding of the point `p` times the scalar `s`.
pub uninterp spec fn point_times(p: Seq<u8>, s: Seq<u8>) -> Seq<u8>;

/// The encoding of the sum of the points `a` and `b`.
pub uninterp spec fn point_plus(a: Seq<u8>, b: Seq<u8>) -> Seq<u8>;

/// The encoding of eight times the point `p`.
pub uninterp spec fn cofactor_times(p: Seq<u8>) -> Seq<u8>;

/// The encoding of the Pedersen commitment to `amount` with mask `mask`.
pub uninterp spec fn commitment_point(mask: Seq<u8>, amount: u64) -> Seq<u8>;

/// The scalar whose value is `v` modulo the group order.
pub open spec fn scalar_of(v: int) -> nat {
    (v % (group_order() as int)) as nat
}

/// The 32-byte little-endian encoding of `v`.
pub open spec fn scalar_bytes(v: nat) -> Seq<u8> {
    Seq::new(32, |i: int| ((v / power(256, i as nat)) % 256) as u8)
}

/// Appends the bytes of `src` to `buf`.
pub fn append(buf: &mut Vec<u8>, src: &[u8])
    ensures
        final(buf)@ == old(buf)@ + src@,
{
    let ghost start = buf@;
    let mut i: usize = 0;
    while i < src.len()
        invariant
            i <= src@.len(),
            buf@ == start + src@.take(i as int),
        decreases src@.len() - i,
    {
        buf.push(src[i]);
        proof {
            assert(start + src@.take(i + 1) =~= (start + src@.take(i as int)).push(src@[i as int]));
        }
        i = i + 1;
    }
    assert(src@.take(i as int) =~= src@);
}

/// Relies on monero-primitives' `keccak256`: the 32-byte Keccak-256 digest.
#[verifier::external_body]
pub fn keccak256(data: &[u8]) -> (r: [u8; 32])
    ensures
        r@ == keccak_of(data@),
{
    monero_wallet::primitives::keccak256(data)
}

/// Relies on curve25519-dalek's `Scalar::from_bytes_mod_order`: the bytes read as
/// a little-endian integer, reduced modulo the group order.
#[verifier::external_body]
pub fn scalar_reduce(b: [u8; 32]) -> (r: [u8; 32])
    ensures
        is_canonical_scalar(r@),
        r@ == scalar_bytes(scalar_of(le_value(b@) as int)),
        le_value(r@) == scalar_of(le_value(b@) as int),
{
    curve25519_dalek::Scalar::from_bytes_mod_order(b).to_bytes()
}

/// Relies on curve25519-dalek's scalar multiplication (`Scalar * Scalar`), on the
/// reduced values of the two byte strings.
#[verifier::external_body]
pub fn scalar_mul(a: [u8; 32], b: [u8; 32]) -> (r: [u8; 32])
    ensures
        is_canonical_scalar(r@),
        r@ == scalar_bytes(scalar_of((le_value(a@) * le_value(b@)) as int)),
        le_value(r@) == scalar_of((le_value(a@) * le_value(b@)) as int),
{
    let a = curve25519_dalek::Scalar::from_bytes_mod_order(a);
    let b = curve25519_dalek::Scalar::from_bytes_mod_order(b);
    (a * b).to_bytes()
}

/// Relies on curve25519-dalek's scalar subtraction (`Scalar - Scalar`), on the
/// reduced values of the two byte strings.
#[verifier::external_body]
pub fn scalar_sub(a: [u8; 32], b: [u8; 32]) -> (r: [u8; 32])
    ensures
        is_canonical_scalar(r@),
        r@ == scalar_bytes(scalar_of(le_value(a@) as int - le_value(b@) as int)),
        le_value(r@) == scalar_of(le_value(a@) as int - le_value(b@) as int),
{
    let a = curve25519_dalek::Scalar::from_bytes_mod_order(a);
    let b = curve25519_dalek::Scalar::from_bytes_mod_order(b);
    (a - b).to_bytes()
}

/// Relies on curve25519-dalek's `EdwardsPoint * Scalar`, between the decompressed
/// point and the reduced scalar, and on `compress`, whose encodings are canonical.
#[verifier::external_body]
pub fn point_mul(p: [u8; 32], s: [u8; 32]) -> (r: [u8; 32])
    requires
        is_point_encoding(p@),
    ensures
        r@ == point_times(p@, s@),
        is_point_encoding(r@),
{
    let p = curve25519_dalek::edwards::CompressedEdwardsY(p).decompress().unwrap();
    (p * curve25519_dalek::Scalar::from_bytes_mod_order(s)).compress().to_bytes()
}

/// Relies on curve25519-dalek's `EdwardsPoint + EdwardsPoint`, between the
/// decompressed points, and on `compress`.
#[verifier::external_body]
pub fn point_add(a: [u8; 32], b: [u8; 32]) -> (r: [u8; 32])
    requires
        is_point_encoding(a@),
        is_point_encoding(b@),
    ensures
        r@ == point_plus(a@, b@),
        is_point_encoding(r@),
{
    let a = curve25519_dalek::edwards::CompressedEdwardsY(a).decompress().unwrap();
    let b = curve25519_dalek::edwards::CompressedEdwardsY(b).decompress().unwrap();
    (a + b).compress().to_bytes()
}

/// Relies on curve25519-dalek's `EdwardsPoint::mul_by_cofactor`, on the
/// decompressed point, and on `compress`.
#[verifier::external_body]
pub fn mul_by_cofactor(p: [u8; 32]) -> (r: [u8; 32])
    requires
        is_point_encoding(p@),
    ensures
        r@ == cofactor_times(p@),
        is_point_encoding(r@),
{
    let p = curve25519_dalek::edwards::CompressedEdwardsY(p).decompress().unwrap();
    p.mul_by_cofactor().compress().to_bytes()
}

/// Relies on monero-ed25519's `Commitment::commit`, for the mask read as a
/// reduced scalar, and on `compress`.
#[verifier::external_body]
pub fn commit(mask: [u8; 32], amount: u64) -> (r: [u8; 32])
    ensures
        r@ == commitment_point(mask@, amount),
{
    let mask = curve25519_dalek::Scalar::from_bytes_mod_order(mask);
    let c = monero_wallet::ed25519::Commitment::new(monero_wallet::ed25519::Scalar::from(mask), amount);
    c.commit().compress().to_bytes()
}

/// Relies on zeroize's `Zeroize` for `Vec`: the elements and the spare capacity
/// are overwritten with zeros, then the vector is emptied.
#[verifier::external_body]
pub fn wipe(buf: &mut Vec<u8>)
    ensures
        final(buf)@ == Seq::<u8>::empty(),
{
    zeroize::Zeroize::zeroize(buf)
}

/// Relies on zeroize's `Zeroize` for arrays: every byte is overwritten with zero.
#[verifier::external_body]
pub fn wipe_bytes(b: &mut [u8; 32])
    ensures
        final(b)@ == Seq::new(32, |i: int| 0u8),
{
    zeroize::Zeroize::zeroize(b)
}

/// The encoding of the Ed25519 base point.
pub open spec fn base_point() -> Seq<u8> {
    seq![0x58u8, 0x66, 0x66, 0x66, 0x66, 0x66, 0x66, 0x66, 0x66, 0x66, 0x66, 0x66, 0x66, 0x66,
        0x66, 0x66, 0x66, 0x66, 0x66, 0x66, 0x66, 0x66, 0x66, 0x66, 0x66, 0x66, 0x66, 0x66, 0x66,
        0x66, 0x66, 0x66]
}

/// Relies on curve25519-dalek's `ED25519_BASEPOINT_COMPRESSED`, the encoding of
/// the base point, which decompresses.
#[verifier::external_body]
pub fn base_point_bytes() -> (r: [u8; 32])
    ensures
        r@ == base_point(),
        is_point_encoding(r@),
{
    curve25519_dalek::constants::ED25519_BASEPOINT_COMPRESSED.to_bytes()
}

} // verus!
