use aegis_fs::crypto::{
    derive_key_from_password, generate_key, parse_key, trim_ws, CryptoError, Encryptor, KeyError,
};
use aegis_fs::hexcode::{hex_decode, hex_encode};

#[test]
fn test_encrypt_decrypt() {
    let key = generate_key();
    let encryptor = Encryptor::new(key);

    let plaintext = b"Hello, World!";
    let ciphertext = encryptor.encrypt(&plaintext.to_vec());
    let decrypted = encryptor.decrypt(&ciphertext).unwrap();

    assert_eq!(plaintext, decrypted.as_slice());
}

#[test]
fn round_trip_many_sizes() {
    let key = generate_key();
    let enc = Encryptor::new(key);
    for size in [0usize, 1, 13, 4095, 4096, 1 << 20] {
        let plain: Vec<u8> = (0..size).map(|i| (i * 7 + 3) as u8).collect();
        let blob = enc.encrypt(&plain);
        assert_eq!(blob.len(), plain.len() + 28);
        let back = enc.decrypt(&blob).unwrap();
        assert_eq!(back, plain);
    }
}

#[test]
fn envelope_adds_28_bytes() {
    let key = generate_key();
    let enc = Encryptor::new(key);
    let blob = enc.encrypt(&b"hello".to_vec());
    assert_eq!(blob.len(), 5 + 28);
    let empty = enc.encrypt(&Vec::new());
    assert_eq!(empty.len(), 28);
}

#[test]
fn same_plaintext_encrypts_differently() {
    let key = generate_key();
    let enc = Encryptor::new(key);
    let plain = b"nonce freshness".to_vec();
    let a = enc.encrypt(&plain);
    let b = enc.encrypt(&plain);
    assert_ne!(a, b);
}

#[test]
fn every_single_bit_flip_fails_authentication() {
    let key = generate_key();
    let enc = Encryptor::new(key);
    let blob = enc.encrypt(&b"hello".to_vec());
    for byte in 0..blob.len() {
        for bit in 0..8 {
            let mut tampered = blob.clone();
            tampered[byte] ^= 1u8 << bit;
            match enc.decrypt(&tampered) {
                Err(CryptoError::AuthenticationFailure) => {}
                other => panic!("tampered blob decrypted: {:?}", other),
            }
        }
    }
}

#[test]
fn short_blob_is_malformed() {
    let key = generate_key();
    let enc = Encryptor::new(key);
    assert_eq!(
        enc.decrypt(&vec![0u8; 11]),
        Err(CryptoError::MalformedCiphertext)
    );
    assert_eq!(enc.decrypt(&Vec::new()), Err(CryptoError::MalformedCiphertext));
}

#[test]
fn wrong_key_fails_authentication() {
    let enc1 = Encryptor::new(vec![1u8; 32]);
    let enc2 = Encryptor::new(vec![2u8; 32]);
    let blob = enc1.encrypt(&b"secret".to_vec());
    assert_eq!(enc2.decrypt(&blob), Err(CryptoError::AuthenticationFailure));
}

#[test]
fn generated_keys_are_32_bytes_and_distinct() {
    let a = generate_key();
    let b = generate_key();
    assert_eq!(a.len(), 32);
    assert_eq!(b.len(), 32);
    assert_ne!(a, b);
    assert_eq!(hex_encode(&a).len(), 64);
}

#[test]
fn parse_key_accepts_64_hex_digits_with_whitespace() {
    let text = b"000102030405060708090a0b0c0d0e0f101112131415161718191a1b1c1d1e1f\n".to_vec();
    let key = parse_key(&text).unwrap();
    assert_eq!(key.len(), 32);
    assert_eq!(key[0], 0);
    assert_eq!(key[1], 1);
    assert_eq!(key[31], 0x1f);
}

#[test]
fn parse_key_rejects_bad_hex() {
    let text = b"zz0102030405060708090a0b0c0d0e0f101112131415161718191a1b1c1d1e1f".to_vec();
    assert_eq!(parse_key(&text), Err(KeyError::BadHex));
    let odd = b"abc".to_vec();
    assert_eq!(parse_key(&odd), Err(KeyError::BadHex));
}

#[test]
fn parse_key_rejects_wrong_length() {
    let text = b"00010203".to_vec();
    assert_eq!(parse_key(&text), Err(KeyError::WrongLength));
}

#[test]
fn parse_key_round_trips_generated_key() {
    let key = generate_key();
    let mut text = hex_encode(&key);
    text.push(b'\n');
    assert_eq!(parse_key(&text).unwrap(), key);
}

#[test]
fn trim_ws_strips_both_ends() {
    assert_eq!(trim_ws(&b"  abc\t\r\n".to_vec()), b"abc".to_vec());
    assert_eq!(trim_ws(&b"abc".to_vec()), b"abc".to_vec());
    assert_eq!(trim_ws(&b" \n ".to_vec()), Vec::<u8>::new());
}

#[test]
fn derive_key_matches_sha256_of_password_and_salt() {
    let key = derive_key_from_password("a", b"bc");
    // SHA-256("abc")
    let expected =
        hex_decode(&b"ba7816bf8f01cfea414140de5dae2223b00361a396177a9cb410ff61f20015ad".to_vec())
            .unwrap();
    assert_eq!(key, expected);
    let again = derive_key_from_password("a", b"bc");
    assert_eq!(key, again);
}

#[test]
fn hex_codec_exact_values() {
    assert_eq!(hex_encode(&vec![0x00, 0xff, 0x1a]), b"00ff1a".to_vec());
    assert_eq!(hex_decode(&b"00ff1a".to_vec()).unwrap(), vec![0x00, 0xff, 0x1a]);
    assert_eq!(hex_decode(&b"00FF1A".to_vec()).unwrap(), vec![0x00, 0xff, 0x1a]);
    assert_eq!(hex_decode(&b"0".to_vec()), None);
    assert_eq!(hex_decode(&b"0g".to_vec()), None);
    assert_eq!(hex_encode(&Vec::new()), Vec::<u8>::new());
    assert_eq!(hex_decode(&Vec::new()).unwrap(), Vec::<u8>::new());
}
