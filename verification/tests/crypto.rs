use entrouter_line::relay::crypto::{generate_key, CryptoError, TunnelCrypto};

#[test]
fn encrypt_decrypt_roundtrip() {
    let key = generate_key().unwrap();
    let crypto = TunnelCrypto::new(&key);
    let payload = b"hello entrouter-line";

    let encrypted = crypto.encrypt(42u64, payload);
    assert_ne!(&encrypted[..payload.len()], payload);

    let decrypted = crypto.decrypt(42u64, &encrypted).unwrap();
    assert_eq!(decrypted, payload);
}

#[test]
fn wrong_key_fails() {
    let key1 = generate_key().unwrap();
    let key2 = generate_key().unwrap();
    let c1 = TunnelCrypto::new(&key1);
    let c2 = TunnelCrypto::new(&key2);

    let encrypted = c1.encrypt(1, b"secret");
    assert!(c2.decrypt(1, &encrypted).is_err());
}

#[test]
fn wrong_seq_fails() {
    let key = generate_key().unwrap();
    let crypto = TunnelCrypto::new(&key);

    let encrypted = crypto.encrypt(1, b"secret");
    assert!(crypto.decrypt(2, &encrypted).is_err());
}

#[test]
fn empty_payload() {
    let key = generate_key().unwrap();
    let crypto = TunnelCrypto::new(&key);
    let encrypted = crypto.encrypt(0, b"");
    let decrypted = crypto.decrypt(0, &encrypted).unwrap();
    assert!(decrypted.is_empty());
}

#[test]
fn large_payload() {
    let key = generate_key().unwrap();
    let crypto = TunnelCrypto::new(&key);
    let payload = vec![0xABu8; 16_384];
    let encrypted = crypto.encrypt(100, &payload);
    let decrypted = crypto.decrypt(100, &encrypted).unwrap();
    assert_eq!(decrypted, payload);
}

#[test]
fn sequential_nonces() {
    let key = generate_key().unwrap();
    let crypto = TunnelCrypto::new(&key);
    let payload = b"test";

    let e1 = crypto.encrypt(0, payload);
    let e2 = crypto.encrypt(1, payload);
    assert_ne!(e1, e2);

    assert_eq!(crypto.decrypt(0, &e1).unwrap(), payload);
    assert_eq!(crypto.decrypt(1, &e2).unwrap(), payload);
}

#[test]
fn tampered_ciphertext_fails() {
    let key = generate_key().unwrap();
    let crypto = TunnelCrypto::new(&key);
    let mut encrypted = crypto.encrypt(1, b"data");
    encrypted[0] ^= 0xFF;
    assert!(crypto.decrypt(1, &encrypted).is_err());
}

#[test]
fn generate_key_is_random() {
    let k1 = generate_key().unwrap();
    let k2 = generate_key().unwrap();
    assert_ne!(k1, k2);
}

#[test]
fn ciphertext_carries_tag_and_short_input_fails() {
    let crypto = TunnelCrypto::new(&[7u8; 32]);
    assert_eq!(crypto.encrypt(5, &[1u8, 2, 3]).len(), 3 + 16);
    assert_eq!(crypto.decrypt(5, &[0u8; 15]), Err(CryptoError::DecryptionFailed));
    assert_eq!(CryptoError::DecryptionFailed.message(), "decryption failed (bad key or tampered)");
}

#[test]
fn known_answer_with_fixed_key() {
    let a = TunnelCrypto::new(&[1u8; 32]);
    let b = TunnelCrypto::new(&[1u8; 32]);
    assert_eq!(a.encrypt(9, b"same"), b.encrypt(9, b"same"));
}
