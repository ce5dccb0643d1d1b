use payment_proofs::base58::{decode, encode, encoded_len_for_bytes};

fn sample(len: usize) -> Vec<u8> {
    (0..len).map(|i| (i as u8).wrapping_mul(37).wrapping_add(11)).collect()
}

#[test]
fn encoded_len_of_each_block_length() {
    let expected = [0usize, 2, 3, 5, 6, 7, 9, 10, 11];
    for (n, e) in expected.iter().enumerate() {
        assert_eq!(encoded_len_for_bytes(n), *e);
    }
    assert_eq!(encoded_len_for_bytes(32), 44);
    assert_eq!(encoded_len_for_bytes(64), 88);
    assert_eq!(encoded_len_for_bytes(9), 13);
}

#[test]
fn decode_inverts_encode_up_to_forty_bytes() {
    for len in 0..=40 {
        let b = sample(len);
        assert_eq!(decode(&encode(&b)), Some(b.clone()), "length {}", len);
        let zeros = vec![0u8; len];
        assert_eq!(decode(&encode(&zeros)), Some(zeros.clone()));
        let ones = vec![0xffu8; len];
        assert_eq!(decode(&encode(&ones)), Some(ones.clone()));
    }
}

#[test]
fn encoded_len_matches_encodings() {
    for n in 0..=16 {
        assert_eq!(encode(&vec![0u8; n]).len(), encoded_len_for_bytes(n));
        assert_eq!(encode(&vec![0xffu8; n]).len(), encoded_len_for_bytes(n));
    }
}

#[test]
fn encode_known_values() {
    assert_eq!(encode(&[]), "");
    assert_eq!(encode(&[0]), "11");
    assert_eq!(encode(&[0xff]), "5Q");
    assert_eq!(encode(&[0u8; 8]), "11111111111");
    assert_eq!(encode(&[0xffu8; 8]), "jpXCZedGfVQ");
    assert_eq!(encode(&[0, 0, 0, 0, 0, 0, 0, 57, 0]), "1111111111z11");
}

#[test]
fn decode_known_values() {
    assert_eq!(decode(""), Some(vec![]));
    assert_eq!(decode("5Q"), Some(vec![0xff]));
    assert_eq!(decode("jpXCZedGfVQ"), Some(vec![0xffu8; 8]));
}

#[test]
fn decode_rejects_symbols_outside_alphabet() {
    assert_eq!(decode("0Q"), None);
    assert_eq!(decode("1I"), None);
    assert_eq!(decode("1l"), None);
    assert_eq!(decode("1O"), None);
    assert_eq!(decode("5\u{e9}"), None);
}

#[test]
fn decode_rejects_chunk_widths_of_no_block() {
    assert_eq!(decode("1"), None);
    assert_eq!(decode("1111"), None);
    assert_eq!(decode("11111111"), None);
    assert_eq!(decode("111111111111"), None);
}

#[test]
fn decode_rejects_overflowing_chunk() {
    assert_eq!(decode("zzzzzzzzzzz"), None);
    assert_eq!(decode("jpXCZedGfVR"), None);
}

#[test]
fn decode_keeps_low_bytes_of_short_chunk() {
    // "zz" is 57 * 58 + 57 = 3363 = 0x0d23; a two-symbol chunk stands for one byte.
    assert_eq!(decode("zz"), Some(vec![0x23]));
}
