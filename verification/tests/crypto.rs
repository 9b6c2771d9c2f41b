use cykel::crypto::{decrypt, derive_key, encrypt, encrypt_with, CryptoError};

#[test]
fn encrypt_decrypt_roundtrip() {
    let passphrase = "test-passphrase-123";
    let data = b"hello cykel";

    let encrypted = encrypt(passphrase, data).unwrap();
    let decrypted = decrypt(passphrase, &encrypted).unwrap();

    assert_eq!(decrypted, data);
}

#[test]
fn wrong_passphrase_fails() {
    let data = b"secret data";
    let encrypted = encrypt("correct", data).unwrap();
    let result = decrypt("wrong", &encrypted);

    assert!(result.is_err());
}

#[test]
fn corrupted_data_fails() {
    let result = decrypt("any", &[0u8; 10]);
    assert!(result.is_err());
}

#[test]
fn wrong_passphrase_gives_the_decryption_error() {
    let encrypted = encrypt_with("correct", b"secret data", &[7u8; 32], &[9u8; 12]).unwrap();
    assert_eq!(decrypt("wrong", &encrypted), Err(CryptoError::Decryption));
}

#[test]
fn short_containers_are_malformed() {
    assert_eq!(decrypt("any", &[0u8; 10]), Err(CryptoError::InvalidFormat));
    assert_eq!(decrypt("any", &[]), Err(CryptoError::InvalidFormat));
    assert_eq!(decrypt("any", &[0u8; 51]), Err(CryptoError::InvalidFormat));
}

#[test]
fn a_container_of_the_least_length_is_tried_and_fails_to_open() {
    assert_eq!(decrypt("any", &[0u8; 52]), Err(CryptoError::Decryption));
}

#[test]
fn a_container_too_short_for_marker_and_tag_fails_to_open() {
    assert_eq!(decrypt("any", &[0u8; 59]), Err(CryptoError::Decryption));
    let mut container = encrypt_with("any", b"", &[3u8; 32], &[4u8; 12]).unwrap();
    assert_eq!(container.len(), 68);
    container.truncate(67);
    assert_eq!(decrypt("any", &container), Err(CryptoError::Decryption));
}

#[test]
fn container_is_salt_nonce_and_ciphertext() {
    let salt = [1u8; 32];
    let nonce = [2u8; 12];
    let data = b"hello cykel";
    let container = encrypt_with("pass", data, &salt, &nonce).unwrap();
    assert_eq!(container.len(), 32 + 12 + 8 + data.len() + 16);
    assert_eq!(&container[..32], &salt);
    assert_eq!(&container[32..44], &nonce);
    assert_ne!(&container[52..52 + data.len()], data);
    assert_eq!(decrypt("pass", &container).unwrap(), data);
}

#[test]
fn empty_payload_round_trips() {
    let container = encrypt("pass", b"").unwrap();
    assert_eq!(container.len(), 68);
    assert_eq!(decrypt("pass", &container), Ok(Vec::new()));
}

#[test]
fn flipped_bit_fails_to_open() {
    let mut container = encrypt_with("pass", b"hello cykel", &[3u8; 32], &[4u8; 12]).unwrap();
    let last = container.len() - 1;
    container[last] ^= 1;
    assert_eq!(decrypt("pass", &container), Err(CryptoError::Decryption));
}

#[test]
fn flipped_bit_in_the_payload_fails_to_open() {
    let mut container = encrypt_with("pass", b"hello cykel", &[3u8; 32], &[4u8; 12]).unwrap();
    container[55] ^= 0x80;
    assert_eq!(decrypt("pass", &container), Err(CryptoError::Decryption));
}

#[test]
fn truncated_container_fails_to_open() {
    let mut container = encrypt_with("pass", b"hello cykel, hello", &[3u8; 32], &[4u8; 12]).unwrap();
    container.truncate(container.len() - 1);
    assert_eq!(decrypt("pass", &container), Err(CryptoError::Decryption));
    container.truncate(40);
    assert_eq!(decrypt("pass", &container), Err(CryptoError::InvalidFormat));
}

#[test]
fn each_encryption_draws_a_new_salt_and_nonce() {
    let first = encrypt("pass", b"same").unwrap();
    let second = encrypt("pass", b"same").unwrap();
    assert_ne!(&first[..32], &second[..32]);
    assert_ne!(&first[32..44], &second[32..44]);
    assert_ne!(first, second);
}

#[test]
fn key_derivation_is_deterministic() {
    let salt = [5u8; 32];
    let first = derive_key("pass", &salt).unwrap();
    let second = derive_key("pass", &salt).unwrap();
    assert_eq!(first.len(), 32);
    assert_eq!(first, second);
    assert_ne!(first, salt.to_vec());
}

#[test]
fn key_depends_on_passphrase_and_salt() {
    let key = derive_key("pass", &[5u8; 32]).unwrap();
    assert_ne!(key, derive_key("other", &[5u8; 32]).unwrap());
    assert_ne!(key, derive_key("pass", &[6u8; 32]).unwrap());
}

#[test]
fn key_derivation_refuses_a_short_salt() {
    assert_eq!(derive_key("pass", &[5u8; 4]), Err(CryptoError::KeyDerivation));
}

#[test]
fn crypto_errors_in_words() {
    assert_eq!(CryptoError::KeyDerivation.message(), "key derivation failed");
    assert_eq!(CryptoError::Encryption.message(), "encryption failed");
    assert_eq!(
        CryptoError::Decryption.message(),
        "decryption failed — wrong passphrase or corrupted data"
    );
    assert_eq!(CryptoError::InvalidFormat.message(), "invalid data format");
}
