use bls12_381::hash_to_curve::{ExpandMsgXmd, HashToCurve};
use bls12_381::{G1Affine, G1Projective, G2Affine, Scalar};
use sha2::Sha256;

use zellular::errors::{BuildError, VerifyError};
use zellular::registry::{RawOperator, Zellular};

const DST: &[u8] = b"BLS_SIG_BLS12381G1_XMD:SHA-256_SSWU_RO_NUL_";
const ONE: u128 = 1_000_000_000_000_000_000;

fn be_to_decimal(bytes: &[u8]) -> String {
    let mut digits: Vec<u8> = Vec::new();
    let mut cur: Vec<u8> = bytes.to_vec();
    loop {
        let mut rem: u32 = 0;
        let mut all_zero = true;
        for b in cur.iter_mut() {
            let t = rem * 256 + *b as u32;
            *b = (t / 10) as u8;
            rem = t % 10;
            if *b != 0 {
                all_zero = false;
            }
        }
        digits.push(b'0' + rem as u8);
        if all_zero {
            break;
        }
    }
    digits.reverse();
    String::from_utf8(digits).unwrap()
}

fn hex_of(bytes: &[u8]) -> String {
    let mut s = String::new();
    for b in bytes {
        s.push_str(&format!("{:02x}", b));
    }
    s
}

fn raw_op(id: &str, sk: u64, stake: u128) -> RawOperator {
    let s = Scalar::from(sk);
    let g1 = G1Affine::from(G1Affine::generator() * s);
    let g2 = G2Affine::from(G2Affine::generator() * s);
    let u1 = g1.to_uncompressed();
    let u2 = g2.to_uncompressed();
    RawOperator {
        id: id.to_string(),
        operator_id: id.to_string(),
        pubkey_g1_x: vec![be_to_decimal(&u1[0..48])],
        pubkey_g1_y: vec![be_to_decimal(&u1[48..96])],
        pubkey_g2_x: vec![be_to_decimal(&u2[48..96]), be_to_decimal(&u2[0..48])],
        pubkey_g2_y: vec![be_to_decimal(&u2[144..192]), be_to_decimal(&u2[96..144])],
        socket: "127.0.0.1:8000".to_string(),
        stake,
    }
}

fn sign(msg: &str, sks: &[u64]) -> String {
    let h = <G1Projective as HashToCurve<ExpandMsgXmd<Sha256>>>::hash_to_curve(
        msg.as_bytes(),
        DST,
    );
    let mut total = Scalar::from(0u64);
    for sk in sks {
        total += Scalar::from(*sk);
    }
    let sig = G1Affine::from(h * total);
    hex_of(&sig.to_compressed())
}

fn four_op_registry(threshold: u64) -> Zellular {
    let ops = vec![
        raw_op("op1", 11, ONE),
        raw_op("op2", 22, ONE),
        raw_op("op3", 33, ONE),
        raw_op("op4", 44, ONE),
    ];
    Zellular::new("simple_app", "http://localhost", threshold, &ops).unwrap()
}

#[test]
fn aggregate_key_is_order_independent() {
    let a = raw_op("op1", 11, ONE);
    let b = raw_op("op2", 22, ONE);
    let c = raw_op("op3", 33, ONE);
    let z1 = Zellular::new("app", "url", 67, &vec![a, b, c]).unwrap();
    let a = raw_op("op1", 11, ONE);
    let b = raw_op("op2", 22, ONE);
    let c = raw_op("op3", 33, ONE);
    let z2 = Zellular::new("app", "url", 67, &vec![c, b, a]).unwrap();
    assert_eq!(z1.aggregated_public_key(), z2.aggregated_public_key());
}

#[test]
fn aggregate_matches_group_sum() {
    let ops = vec![raw_op("op1", 5, ONE), raw_op("op2", 9, ONE)];
    let z = Zellular::new("app", "url", 67, &ops).unwrap();
    let expected = G2Affine::from(G2Affine::generator() * Scalar::from(14u64));
    assert_eq!(
        z.aggregated_public_key().as_slice(),
        &expected.to_compressed()[..]
    );
}

#[test]
fn quorum_exactly_met_verifies_and_below_threshold_fails() {
    let z = four_op_registry(67);
    let msg = "state root 0xabc";
    // Three of four equal-weight operators sign: 75% >= 67%.
    let sig3 = sign(msg, &[11, 22, 33]);
    let r = z
        .verify_signature(msg, &sig3, &vec!["op4".to_string()])
        .unwrap();
    assert!(r);
    // Two of four sign: 50% < 67%, rejected on the stake check alone.
    let sig2 = sign(msg, &[11, 22]);
    let r = z
        .verify_signature(msg, &sig2, &vec!["op3".to_string(), "op4".to_string()])
        .unwrap();
    assert!(!r);
}

#[test]
fn signer_share_exactly_at_threshold_is_accepted() {
    // Three of four equal weights is exactly a 75% threshold; one fewer
    // signer drops strictly below it.
    let z = four_op_registry(75);
    let msg = "boundary";
    let sig3 = sign(msg, &[11, 22, 33]);
    let r = z
        .verify_signature(msg, &sig3, &vec!["op4".to_string()])
        .unwrap();
    assert!(r);
    let sig2 = sign(msg, &[11, 22]);
    let r = z
        .verify_signature(msg, &sig2, &vec!["op3".to_string(), "op4".to_string()])
        .unwrap();
    assert!(!r);
}

#[test]
fn tampered_message_fails() {
    let z = four_op_registry(67);
    let sig = sign("hello world", &[11, 22, 33]);
    // One bit flipped in the message: 'o' (0x6f) became 'n' (0x6e).
    let r = z
        .verify_signature("hello world", &sig, &vec!["op4".to_string()])
        .unwrap();
    assert!(r);
    let r = z
        .verify_signature("hello worln", &sig, &vec!["op4".to_string()])
        .unwrap();
    assert!(!r);
}

#[test]
fn wrong_signer_set_fails_pairing() {
    let z = four_op_registry(67);
    let msg = "batch 7";
    // Signed by three operators, but a different one is declared non-signer.
    let sig = sign(msg, &[11, 22, 33]);
    let r = z
        .verify_signature(msg, &sig, &vec!["op1".to_string()])
        .unwrap();
    assert!(!r);
}

#[test]
fn unknown_nonsigner_is_an_error_not_false() {
    let z = four_op_registry(67);
    let msg = "anything";
    let sig = sign(msg, &[11, 22, 33]);
    let r = z.verify_signature(msg, &sig, &vec!["ghost".to_string()]);
    assert_eq!(r, Err(VerifyError::UnknownOperator));
}

#[test]
fn zero_total_stake_is_an_error() {
    let z = Zellular::new("app", "url", 67, &vec![]).unwrap();
    let r = z.verify_signature("m", "00", &vec![]);
    assert_eq!(r, Err(VerifyError::EmptyOperatorSet));
}

#[test]
fn duplicate_nonsigners_are_not_double_counted() {
    let z = four_op_registry(67);
    let msg = "dedup";
    let sig = sign(msg, &[11, 22, 33]);
    // Naming the same non-signer three times must not triple its stake nor
    // subtract its key more than once.
    let dups = vec!["op4".to_string(), "op4".to_string(), "op4".to_string()];
    let r = z.verify_signature(msg, &sig, &dups).unwrap();
    assert!(r);
}

#[test]
fn empty_nonsigners_checks_full_aggregate() {
    let z = four_op_registry(67);
    let msg = "all signed";
    let sig = sign(msg, &[11, 22, 33, 44]);
    let r = z.verify_signature(msg, &sig, &vec![]).unwrap();
    assert!(r);
}

#[test]
fn invalid_signature_encoding_is_false() {
    let z = four_op_registry(67);
    // Odd-length hex, non-hex digits, wrong length, and a non-point all
    // decode to "cryptographic mismatch", a normal false.
    assert!(!z.verify_signature("m", "abc", &vec![]).unwrap());
    assert!(!z.verify_signature("m", "zz", &vec![]).unwrap());
    assert!(!z.verify_signature("m", "0011", &vec![]).unwrap());
    let not_a_point = hex_of(&[0x8au8; 48]);
    assert!(!z.verify_signature("m", &not_a_point, &vec![]).unwrap());
}

#[test]
fn malformed_record_fails_build() {
    let mut bad = raw_op("op1", 11, ONE);
    bad.pubkey_g2_x[0] = "not a number".to_string();
    let r = Zellular::new("app", "url", 67, &vec![bad]);
    assert_eq!(r.err().unwrap(), BuildError::MalformedOperatorRecord);

    // A well-formed decimal that is no point on the curve is rejected too.
    let mut off_curve = raw_op("op1", 11, ONE);
    off_curve.pubkey_g2_y[0] = "12345".to_string();
    let r = Zellular::new("app", "url", 67, &vec![off_curve]);
    assert_eq!(r.err().unwrap(), BuildError::MalformedOperatorRecord);

    // Missing coordinate components are malformed.
    let mut short = raw_op("op1", 11, ONE);
    short.pubkey_g2_x.pop();
    let r = Zellular::new("app", "url", 67, &vec![short]);
    assert_eq!(r.err().unwrap(), BuildError::MalformedOperatorRecord);
}

#[test]
fn duplicate_id_replaces_earlier_operator() {
    let a = raw_op("op1", 11, ONE);
    let b = raw_op("op1", 22, ONE / 2);
    let z = Zellular::new("app", "url", 67, &vec![a, b]).unwrap();
    assert_eq!(z.operators_len(), 1);
    // The surviving operator is the later record: its single key is the
    // whole aggregate.
    let expected = G2Affine::from(G2Affine::generator() * Scalar::from(22u64));
    assert_eq!(
        z.aggregated_public_key().as_slice(),
        &expected.to_compressed()[..]
    );
}

#[test]
fn stake_is_clamped_to_one_unit() {
    // An over-unity raw stake is clamped, so one inflated operator cannot
    // dominate three honest ones: with threshold 67 and three of four
    // signing, the non-signer's clamped share stays 25%.
    let ops = vec![
        raw_op("op1", 11, ONE),
        raw_op("op2", 22, ONE),
        raw_op("op3", 33, ONE),
        raw_op("op4", 44, 1000 * ONE),
    ];
    let z = Zellular::new("app", "url", 67, &ops).unwrap();
    let msg = "clamp";
    let sig = sign(msg, &[11, 22, 33]);
    let r = z
        .verify_signature(msg, &sig, &vec!["op4".to_string()])
        .unwrap();
    assert!(r);
}
