use grimorio::crypto::{decrypt, encrypt, generate_key, CryptoError, NONCE_SIZE, TAG_SIZE};

#[test]
fn encrypt_decrypt_roundtrip() {
    let key = generate_key();
    let plaintext = b"the secret password";

    let blob = encrypt(&key, plaintext);
    assert!(blob.len() > plaintext.len()); // nonce + ciphertext overhead

    let decrypted = decrypt(&key, &blob).expect("decrypt should succeed");
    assert_eq!(decrypted, plaintext);
}

#[test]
fn decrypt_wrong_key_fails() {
    let key1 = generate_key();
    let key2 = generate_key();
    let plaintext = b"secret";

    let blob = encrypt(&key1, plaintext);
    let result = decrypt(&key2, &blob);
    assert!(matches!(result, Err(CryptoError::DecryptionFailed)));
}

#[test]
fn decrypt_truncated_fails() {
    let key = generate_key();
    let blob = vec![0u8; 5]; // too short to contain a nonce
    let result = decrypt(&key, &blob);
    assert!(matches!(result, Err(CryptoError::MalformedCiphertext)));
}

#[test]
fn blob_is_nonce_ciphertext_and_tag() {
    let key = generate_key();
    let plaintext = b"0123456789";
    let blob = encrypt(&key, plaintext);
    assert_eq!(blob.len(), NONCE_SIZE + plaintext.len() + TAG_SIZE);
    assert_eq!(blob.len(), 38);
    // The plaintext does not appear in the clear after the nonce.
    assert_ne!(&blob[NONCE_SIZE..NONCE_SIZE + plaintext.len()], &plaintext[..]);
}

#[test]
fn empty_plaintext_roundtrip() {
    let key = generate_key();
    let blob = encrypt(&key, b"");
    assert_eq!(blob.len(), 28);
    assert_eq!(decrypt(&key, &blob).unwrap(), Vec::<u8>::new());
}

#[test]
fn each_encryption_draws_a_fresh_nonce() {
    let key = generate_key();
    let a = encrypt(&key, b"same");
    let b = encrypt(&key, b"same");
    assert_ne!(a, b);
    assert_eq!(decrypt(&key, &a).unwrap(), b"same");
    assert_eq!(decrypt(&key, &b).unwrap(), b"same");
}

#[test]
fn generated_keys_differ() {
    let a = generate_key();
    let b = generate_key();
    assert_eq!(a.len(), 32);
    assert_ne!(a, b);
}

#[test]
fn tampered_blob_fails() {
    let key = generate_key();
    let mut blob = encrypt(&key, b"payload");
    let last = blob.len() - 1;
    blob[last] ^= 0x01;
    assert_eq!(decrypt(&key, &blob), Err(CryptoError::DecryptionFailed));
    let mut blob2 = encrypt(&key, b"payload");
    blob2[0] ^= 0x80; // the nonce
    assert_eq!(decrypt(&key, &blob2), Err(CryptoError::DecryptionFailed));
}

#[test]
fn nonce_without_tag_fails() {
    let key = generate_key();
    // Long enough for a nonce, too short for a tag.
    let blob = vec![7u8; NONCE_SIZE + 3];
    assert_eq!(decrypt(&key, &blob), Err(CryptoError::DecryptionFailed));
    let exactly_nonce = vec![7u8; NONCE_SIZE];
    assert_eq!(decrypt(&key, &exactly_nonce), Err(CryptoError::DecryptionFailed));
    let one_short = vec![7u8; NONCE_SIZE - 1];
    assert_eq!(decrypt(&key, &one_short), Err(CryptoError::MalformedCiphertext));
}

#[test]
fn crypto_error_messages() {
    assert_eq!(CryptoError::MalformedCiphertext.message(), "malformed ciphertext");
    assert_eq!(CryptoError::DecryptionFailed.message(), "decryption failed");
}
