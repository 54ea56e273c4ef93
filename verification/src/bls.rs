use vstd::prelude::*;

verus! {

// The asymmetric BLS convention is fixed here once: signatures and hashed
// messages live in G1 (48-byte compressed encodings), public keys in G2
// (96-byte compressed encodings). All values cross this boundary as their
// canonical compressed byte encodings, so every contract speaks of plain
// byte sequences.

/// Whether 48 bytes are the canonical compressed encoding of a BLS12-381 G1
/// element: what `G1Affine::from_compressed`'s acceptance check returns.
pub uninterp spec fn g1_decode_ok(enc: Seq<u8>) -> bool;

/// Whether 96 bytes are the canonical compressed encoding of a BLS12-381 G2
/// element: what `G2Affine::from_compressed`'s acceptance check returns.
pub uninterp spec fn g2_decode_ok(enc: Seq<u8>) -> bool;

/// The compressed encoding of the sum of the two G2 elements so encoded:
/// what G2 group addition returns.
pub uninterp spec fn g2_add_enc(a: Seq<u8>, b: Seq<u8>) -> Seq<u8>;

/// The compressed encoding of the difference of the two G2 elements so
/// encoded: what G2 group subtraction (adding the inverse) returns.
pub uninterp spec fn g2_sub_enc(a: Seq<u8>, b: Seq<u8>) -> Seq<u8>;

/// What re-encoding a 192-byte uncompressed G2 element as compressed bytes
/// returns: `None` exactly where `G2Affine::from_uncompressed` rejects the
/// bytes (not on the curve, not in the q-order subgroup, or not canonical).
pub uninterp spec fn g2_compress_enc(uncompressed: Seq<u8>) -> Option<Seq<u8>>;

/// What re-encoding a 96-byte uncompressed G1 element as compressed bytes
/// returns: `None` exactly where `G1Affine::from_uncompressed` rejects the
/// bytes.
pub uninterp spec fn g1_compress_enc(uncompressed: Seq<u8>) -> Option<Seq<u8>>;

/// The compressed encoding of the G1 point that the fixed hash-to-curve
/// construction maps the message to; a pure function of the message bytes.
pub uninterp spec fn hash_to_g1_enc(message: Seq<u8>) -> Seq<u8>;

/// Whether the bilinear pairing equality e(sig, G2 generator) == e(hpoint,
/// key) holds for the elements so encoded; a pure function of the three
/// encodings.
pub uninterp spec fn bls_pairing_eq(sig: Seq<u8>, hpoint: Seq<u8>, key: Seq<u8>) -> bool;

/// The compressed encoding of the G2 identity element: the compression and
/// infinity flag bits set in the first byte, zeros everywhere else.
pub open spec fn g2_identity_enc() -> Seq<u8> {
    Seq::new(96, |i: int| if i == 0 { 0xc0u8 } else { 0u8 })
}

/// Relies on bls12_381's `G2Affine::identity` and `to_compressed`: the
/// identity element encodes as 0xc0 followed by 95 zero bytes, and that
/// encoding decodes back.
#[verifier::external_body]
pub(crate) fn g2_identity() -> (r: Vec<u8>)
    ensures
        r@ == g2_identity_enc(),
        g2_decode_ok(r@),
        r@.len() == 96,
{
    bls12_381::G2Affine::identity().to_compressed().to_vec()
}

/// Relies on bls12_381's G2 group addition; operands and result are
/// canonical compressed encodings of subgroup elements, so the result
/// decodes back.
#[verifier::external_body]
pub(crate) fn g2_add(a: &Vec<u8>, b: &Vec<u8>) -> (r: Vec<u8>)
    requires
        g2_decode_ok(a@),
        g2_decode_ok(b@),
    ensures
        r@ == g2_add_enc(a@, b@),
        g2_decode_ok(r@),
        r@.len() == 96,
{
    let pa: [u8; 96] = a.as_slice().try_into().unwrap();
    let pb: [u8; 96] = b.as_slice().try_into().unwrap();
    let qa = bls12_381::G2Affine::from_compressed(&pa).unwrap();
    let qb = bls12_381::G2Affine::from_compressed(&pb).unwrap();
    let sum = bls12_381::G2Projective::from(qa) + bls12_381::G2Projective::from(qb);
    bls12_381::G2Affine::from(sum).to_compressed().to_vec()
}

/// Relies on bls12_381's G2 group subtraction; operands and result are
/// canonical compressed encodings of subgroup elements, so the result
/// decodes back.
#[verifier::external_body]
pub(crate) fn g2_sub(a: &Vec<u8>, b: &Vec<u8>) -> (r: Vec<u8>)
    requires
        g2_decode_ok(a@),
        g2_decode_ok(b@),
    ensures
        r@ == g2_sub_enc(a@, b@),
        g2_decode_ok(r@),
        r@.len() == 96,
{
    let pa: [u8; 96] = a.as_slice().try_into().unwrap();
    let pb: [u8; 96] = b.as_slice().try_into().unwrap();
    let qa = bls12_381::G2Affine::from_compressed(&pa).unwrap();
    let qb = bls12_381::G2Affine::from_compressed(&pb).unwrap();
    let diff = bls12_381::G2Projective::from(qa) - bls12_381::G2Projective::from(qb);
    bls12_381::G2Affine::from(diff).to_compressed().to_vec()
}

/// Relies on bls12_381's `G2Affine::from_uncompressed`, which rejects bytes
/// that are not on the curve or not in the q-order subgroup, and on
/// `to_compressed`, which re-encodes an accepted element canonically.
#[verifier::external_body]
pub(crate) fn g2_from_uncompressed(bytes: &Vec<u8>) -> (r: Option<Vec<u8>>)
    requires
        bytes@.len() == 192,
    ensures
        r is Some <==> g2_compress_enc(bytes@) is Some,
        r matches Some(v) ==> Some(v@) == g2_compress_enc(bytes@) && g2_decode_ok(v@) && v@.len()
            == 96,
{
    let arr: [u8; 192] = bytes.as_slice().try_into().unwrap();
    let p = bls12_381::G2Affine::from_uncompressed(&arr);
    if bool::from(p.is_some()) {
        Some(p.unwrap().to_compressed().to_vec())
    } else {
        None
    }
}

/// Relies on bls12_381's `G1Affine::from_uncompressed`, which rejects bytes
/// that are not on the curve or not in the q-order subgroup, and on
/// `to_compressed`, which re-encodes an accepted element canonically.
#[verifier::external_body]
pub(crate) fn g1_from_uncompressed(bytes: &Vec<u8>) -> (r: Option<Vec<u8>>)
    requires
        bytes@.len() == 96,
    ensures
        r is Some <==> g1_compress_enc(bytes@) is Some,
        r matches Some(v) ==> Some(v@) == g1_compress_enc(bytes@) && g1_decode_ok(v@) && v@.len()
            == 48,
{
    let arr: [u8; 96] = bytes.as_slice().try_into().unwrap();
    let p = bls12_381::G1Affine::from_uncompressed(&arr);
    if bool::from(p.is_some()) {
        Some(p.unwrap().to_compressed().to_vec())
    } else {
        None
    }
}

/// Relies on the acceptance check of bls12_381's `G1Affine::from_compressed`.
#[verifier::external_body]
pub(crate) fn g1_check(bytes: &Vec<u8>) -> (r: bool)
    requires
        bytes@.len() == 48,
    ensures
        r == g1_decode_ok(bytes@),
{
    let arr: [u8; 48] = bytes.as_slice().try_into().unwrap();
    bool::from(bls12_381::G1Affine::from_compressed(&arr).is_some())
}

/// Relies on bls12_381's hash-to-curve for G1 (`ExpandMsgXmd` over SHA-256
/// with the standard BLS signature domain-separation tag): the point depends
/// on the message bytes alone and is a curve element.
#[verifier::external_body]
pub(crate) fn hash_to_g1(message: &Vec<u8>) -> (r: Vec<u8>)
    ensures
        r@ == hash_to_g1_enc(message@),
        g1_decode_ok(r@),
        r@.len() == 48,
{
    let p = <bls12_381::G1Projective as bls12_381::hash_to_curve::HashToCurve<
        bls12_381::hash_to_curve::ExpandMsgXmd<sha2::Sha256>,
    >>::hash_to_curve(
        message.as_slice(),
        b"BLS_SIG_BLS12381G1_XMD:SHA-256_SSWU_RO_NUL_",
    );
    bls12_381::G1Affine::from(p).to_compressed().to_vec()
}

/// Relies on bls12_381's `pairing`: returns whether e(sig, G2 generator)
/// equals e(hpoint, key), the BLS verification equality, compared exactly.
#[verifier::external_body]
pub(crate) fn pairing_check(sig: &Vec<u8>, hpoint: &Vec<u8>, key: &Vec<u8>) -> (r: bool)
    requires
        g1_decode_ok(sig@),
        g1_decode_ok(hpoint@),
        g2_decode_ok(key@),
    ensures
        r == bls_pairing_eq(sig@, hpoint@, key@),
{
    let sa: [u8; 48] = sig.as_slice().try_into().unwrap();
    let ha: [u8; 48] = hpoint.as_slice().try_into().unwrap();
    let ka: [u8; 96] = key.as_slice().try_into().unwrap();
    let s = bls12_381::G1Affine::from_compressed(&sa).unwrap();
    let h = bls12_381::G1Affine::from_compressed(&ha).unwrap();
    let k = bls12_381::G2Affine::from_compressed(&ka).unwrap();
    bls12_381::pairing(&s, &bls12_381::G2Affine::generator())
        == bls12_381::pairing(&h, &k)
}

} // verus!
