use curve25519_dalek::constants::ED25519_BASEPOINT_TABLE;
use curve25519_dalek::edwards::CompressedEdwardsY;
use curve25519_dalek::Scalar;
use rand_core::OsRng;

use payment_proofs::crypto::{keccak256, scalar_reduce};
use payment_proofs::out_proof::{
    address_decodes, decodes_to_point, ExtraKeys, ProofAddress, RctData, TxData, TxOutput,
};
use payment_proofs::shared_key_derivations::{
    write_varint, EncryptedAmount, SharedKeyDerivations, TxInput,
};
use payment_proofs::OutProof;

fn public(s: &Scalar) -> [u8; 32] {
    (ED25519_BASEPOINT_TABLE * s).compress().to_bytes()
}

fn times(p: [u8; 32], s: &Scalar) -> [u8; 32] {
    (CompressedEdwardsY(p).decompress().unwrap() * s).compress().to_bytes()
}

fn random() -> Scalar {
    Scalar::random(&mut OsRng)
}

fn address(subaddress: bool, guaranteed: bool) -> ProofAddress {
    ProofAddress {
        view: public(&random()),
        spend: public(&random()),
        is_subaddress: subaddress,
        is_guaranteed: guaranteed,
        payment_id: None,
    }
}

/// A transaction whose output `0` pays `address` with ephemeral key `e`.
fn paying(address: &ProofAddress, e: &Scalar, amount: u64) -> TxData {
    let generator = if address.is_subaddress { address.spend } else { public(&Scalar::ONE) };
    let r = times(generator, e);
    let ecdh = times(address.view, e);
    let view_tag = SharedKeyDerivations::output_derivations(None, ecdh, 0).view_tag;
    TxData {
        inputs: vec![TxInput::ToKey(public(&random()))],
        outputs: vec![TxOutput { amount: Some(amount), view_tag: Some(view_tag) }],
        keys: Some(ExtraKeys { primary: vec![r], additional: None }),
        payment_id: None,
        proofs: None,
    }
}

#[test]
fn out_proof_serialization() {
    let spend_key = random();
    let view_key = random();
    let address = ProofAddress {
        view: public(&view_key),
        spend: public(&spend_key),
        is_subaddress: false,
        is_guaranteed: false,
        payment_id: None,
    };
    let ephemeral_key = random();
    let proof = OutProof::prove(&mut OsRng, &address, ephemeral_key.to_bytes(), &[]);

    let mut proofs = vec![];
    for _ in 0..5 {
        assert_eq!(&OutProof::read(&OutProof::write(&proofs)).unwrap(), &proofs);
        proofs.push(proof);
    }
}

#[test]
fn write_starts_with_tag_and_has_fixed_width() {
    let address = address(false, false);
    let proof = OutProof::prove(&mut OsRng, &address, random().to_bytes(), b"m");
    let text = OutProof::write(&[proof, proof]);
    assert!(text.starts_with("OutProofV2"));
    assert_eq!(text.len(), 10 + 2 * 132);
    assert_eq!(OutProof::write(&[]), "OutProofV2");
    assert_eq!(proof.to_text(), OutProof::write(&[proof]));
}

#[test]
fn read_without_tag_is_empty_list() {
    // Intentionally permissive: text without the tag reads as no proofs, not a failure.
    assert_eq!(OutProof::read(""), Some(vec![]));
    assert_eq!(OutProof::read("hello"), Some(vec![]));
    assert_eq!(OutProof::read("OutProofV1abc"), Some(vec![]));
    assert_eq!(OutProof::read("OutProofV2"), Some(vec![]));
}

#[test]
fn read_fails_on_corrupted_character() {
    let address = address(false, false);
    let proof = OutProof::prove(&mut OsRng, &address, random().to_bytes(), b"m");
    let text = OutProof::write(&[proof, proof]);
    for at in [10usize, 20, 53, 60, 141, 200, text.len() - 1] {
        let mut bytes = text.clone().into_bytes();
        bytes[at] = b'0';
        let corrupted = String::from_utf8(bytes).unwrap();
        assert_eq!(OutProof::read(&corrupted), None, "position {}", at);
    }
    assert_eq!(OutProof::read(&text[.. text.len() - 1]), None);
    assert_eq!(OutProof::read(&format!("{}1", text)), None);
}

#[test]
fn read_rejects_unreduced_scalar_and_bad_point() {
    let address = address(false, false);
    let proof = OutProof::prove(&mut OsRng, &address, random().to_bytes(), b"m");
    let unreduced = OutProof { s: [0xff; 32], ..proof };
    assert_eq!(OutProof::read(&OutProof::write(&[unreduced])), None);
    let not_a_point = OutProof { ecdh: [0xff; 32], ..proof };
    assert_eq!(OutProof::read(&OutProof::write(&[not_a_point])), None);
}

#[test]
fn prove_then_verify_gives_amount() {
    let address = address(false, false);
    let e = random();
    let tx = paying(&address, &e, 1234);
    let proof = OutProof::prove(&mut OsRng, &address, e.to_bytes(), b"message");
    assert_eq!(proof.ecdh, times(address.view, &e));
    assert_eq!(proof.verify(&tx, 0, &address, b"message"), Some(1234));
}

#[test]
fn prove_then_verify_subaddress_with_additional_key() {
    let address = address(true, false);
    let e = random();
    let mut tx = paying(&address, &e, 77);
    let r = tx.keys.as_ref().unwrap().primary[0];
    tx.keys = Some(ExtraKeys { primary: vec![public(&random())], additional: Some(vec![r]) });
    let proof = OutProof::prove(&mut OsRng, &address, e.to_bytes(), b"sub");
    assert_eq!(proof.verify(&tx, 0, &address, b"sub"), Some(77));
}

#[test]
fn verify_rejects_altered_inputs() {
    let address = address(false, false);
    let e = random();
    let tx = paying(&address, &e, 5);
    let proof = OutProof::prove(&mut OsRng, &address, e.to_bytes(), b"message");
    assert_eq!(proof.verify(&tx, 0, &address, b"message!"), None);
    assert_eq!(proof.verify(&tx, 1, &address, b"message"), None);
    let other = ProofAddress { view: public(&random()), ..address };
    assert_eq!(proof.verify(&tx, 0, &other, b"message"), None);
    let mut bad_tag = paying(&address, &e, 5);
    bad_tag.outputs[0].view_tag = Some(bad_tag.outputs[0].view_tag.unwrap().wrapping_add(1));
    assert_eq!(proof.verify(&bad_tag, 0, &address, b"message"), None);
    let mut no_keys = paying(&address, &e, 5);
    no_keys.keys = None;
    assert_eq!(proof.verify(&no_keys, 0, &address, b"message"), None);
}

#[test]
fn guaranteed_and_plain_proofs_do_not_mix() {
    let guaranteed = address(false, true);
    let plain = ProofAddress { is_guaranteed: false, ..guaranteed };
    let e = random();
    let tx = paying(&guaranteed, &e, 9);
    let g_proof = OutProof::prove(&mut OsRng, &guaranteed, e.to_bytes(), b"x");
    let p_proof = OutProof::prove(&mut OsRng, &plain, e.to_bytes(), b"x");
    assert_eq!(g_proof.verify(&tx, 0, &guaranteed, b"x"), Some(9));
    assert_eq!(p_proof.verify(&tx, 0, &plain, b"x"), Some(9));
    assert_eq!(g_proof.verify(&tx, 0, &plain, b"x"), None);
    assert_eq!(p_proof.verify(&tx, 0, &guaranteed, b"x"), None);
}

#[test]
fn verify_checks_payment_id() {
    let pid = [1u8, 2, 3, 4, 5, 6, 7, 8];
    let address = ProofAddress { payment_id: Some(pid), ..address(false, false) };
    let e = random();
    let mut tx = paying(&address, &e, 42);
    let ecdh = times(address.view, &e);
    let mask = SharedKeyDerivations::payment_id_xor(ecdh);
    let mut enc = pid;
    for i in 0..8 {
        enc[i] ^= mask[i];
    }
    let proof = OutProof::prove(&mut OsRng, &address, e.to_bytes(), b"p");
    tx.payment_id = Some(enc);
    assert_eq!(proof.verify(&tx, 0, &address, b"p"), Some(42));
    tx.payment_id = Some(pid);
    assert_eq!(proof.verify(&tx, 0, &address, b"p"), None);
    tx.payment_id = None;
    assert_eq!(proof.verify(&tx, 0, &address, b"p"), None);
}

#[test]
fn verify_opens_compact_amount_commitment() {
    let address = address(false, false);
    let e = random();
    let amount = 1_000_000_007u64;
    let ecdh = times(address.view, &e);
    let derivations = SharedKeyDerivations::output_derivations(None, ecdh, 0);
    let mask = derivations.commitment_mask();
    let encrypted = derivations.compact_amount_encryption(amount);
    assert_ne!(encrypted, amount);
    assert_eq!(derivations.compact_amount_encryption(encrypted), amount);
    let opened = derivations.decrypt(&EncryptedAmount::Compact { amount: encrypted.to_le_bytes() });
    assert_eq!(opened.amount, amount);
    assert_eq!(opened.mask, mask);
    let commitment = monero_wallet::ed25519::Commitment::new(
        monero_wallet::ed25519::Scalar::from(Scalar::from_canonical_bytes(mask).unwrap()),
        amount,
    )
    .commit()
    .compress()
    .to_bytes();
    let mut tx = paying(&address, &e, 0);
    tx.outputs[0].amount = None;
    tx.proofs = Some(RctData {
        commitments: vec![commitment],
        encrypted_amounts: vec![EncryptedAmount::Compact { amount: encrypted.to_le_bytes() }],
    });
    let proof = OutProof::prove(&mut OsRng, &address, e.to_bytes(), b"ct");
    assert_eq!(proof.verify(&tx, 0, &address, b"ct"), Some(amount));
    tx.proofs = Some(RctData {
        commitments: vec![public(&random())],
        encrypted_amounts: vec![EncryptedAmount::Compact { amount: encrypted.to_le_bytes() }],
    });
    assert_eq!(proof.verify(&tx, 0, &address, b"ct"), None);
    tx.proofs = None;
    assert_eq!(proof.verify(&tx, 0, &address, b"ct"), None);
}

#[test]
fn decrypt_original_amount_subtracts_hashes() {
    let derivations = SharedKeyDerivations { view_tag: 0, shared_key: Scalar::from(3u64).to_bytes() };
    let h1 = keccak256(&derivations.shared_key);
    let h2 = keccak256(&h1);
    let mask = Scalar::from(11u64) + Scalar::from_bytes_mod_order(h1);
    let amount = Scalar::from(500u64) + Scalar::from_bytes_mod_order(h2);
    let opened = derivations.decrypt(&EncryptedAmount::Original { mask: mask.to_bytes(), amount: amount.to_bytes() });
    assert_eq!(opened.amount, 500);
    assert_eq!(opened.mask, Scalar::from(11u64).to_bytes());
}

#[test]
fn keccak_of_empty_input() {
    let expected = [
        0xc5, 0xd2, 0x46, 0x01, 0x86, 0xf7, 0x23, 0x3c, 0x92, 0x7e, 0x7d, 0xb2, 0xdc, 0xc7, 0x03,
        0xc0, 0xe5, 0x00, 0xb6, 0x53, 0xca, 0x82, 0x27, 0x3b, 0x7b, 0xfa, 0xd8, 0x04, 0x5d, 0x85,
        0xa4, 0x70,
    ];
    assert_eq!(keccak256(&[]), expected);
}

#[test]
fn scalar_reduce_reduces() {
    let r = scalar_reduce([0xff; 32]);
    assert_ne!(r, [0xff; 32]);
    assert_eq!(r, Scalar::from_bytes_mod_order([0xff; 32]).to_bytes());
}

#[test]
fn varint_encodings() {
    let cases: [(u64, Vec<u8>); 5] = [
        (0, vec![0]),
        (127, vec![127]),
        (128, vec![0x80, 0x01]),
        (300, vec![0xac, 0x02]),
        (u64::MAX, vec![0xff, 0xff, 0xff, 0xff, 0xff, 0xff, 0xff, 0xff, 0xff, 0x01]),
    ];
    for (n, expected) in cases.iter() {
        let mut buf = vec![9u8];
        write_varint(*n, &mut buf);
        let mut want = vec![9u8];
        want.extend_from_slice(expected);
        assert_eq!(buf, want);
    }
}

#[test]
fn uniqueness_hashes_tag_and_inputs() {
    let image = public(&random());
    let u = SharedKeyDerivations::uniqueness(&[TxInput::Gen(300), TxInput::ToKey(image)]);
    let mut data = b"uniqueness".to_vec();
    data.extend_from_slice(&[0xac, 0x02]);
    data.extend_from_slice(&image);
    assert_eq!(u, keccak256(&data));
}

#[test]
fn guaranteed_derivation_binds_uniqueness() {
    let ecdh = public(&random());
    let plain = SharedKeyDerivations::output_derivations(None, ecdh, 3);
    let bound = SharedKeyDerivations::output_derivations(Some([7u8; 32]), ecdh, 3);
    assert_eq!(plain.view_tag, bound.view_tag);
    assert_ne!(plain.shared_key, bound.shared_key);
    let other = SharedKeyDerivations::output_derivations(None, ecdh, 4);
    assert_ne!(plain.shared_key, other.shared_key);
}

#[test]
fn try_prove_needs_decodable_keys() {
    let good = address(false, false);
    assert!(address_decodes(&good));
    assert!(OutProof::try_prove(&mut OsRng, &good, random().to_bytes(), b"t").is_some());
    let bad = ProofAddress { view: [0xff; 32], ..good };
    assert!(!decodes_to_point([0xff; 32]));
    assert!(decodes_to_point(public(&Scalar::ONE)));
    assert!(!address_decodes(&bad));
    assert_eq!(OutProof::try_prove(&mut OsRng, &bad, random().to_bytes(), b"t"), None);
}

#[test]
fn verify_rejects_undecodable_proof_point() {
    let address = address(false, false);
    let e = random();
    let tx = paying(&address, &e, 3);
    let proof = OutProof::prove(&mut OsRng, &address, e.to_bytes(), b"q");
    let broken = OutProof { ecdh: [0xff; 32], ..proof };
    assert_eq!(broken.verify(&tx, 0, &address, b"q"), None);
}
