use encrypt_config::{ConfigError, Encrypter, PasswordFetch};

// Without a platform credential store the keyring crate falls back to its
// mock store, so building an encrypter exercises the full load-or-generate
// path against the mock entry.

#[test]
fn round_trip() {
    let enc = Encrypter::build("round_trip", "test-user", 512).unwrap();
    let kb = enc.key_bytes();
    assert_eq!(kb, 64);

    let plain: Vec<u8> = (0u8..120).collect();
    let cipher = enc.encrypt_serded(&plain).unwrap();
    // 120 bytes fill three chunks of 53 bytes, one modulus each
    assert_eq!(cipher.len(), 3 * kb);

    let back = enc.decrypt(&cipher).unwrap();
    assert_eq!(back, plain);
}

#[test]
fn empty_plaintext() {
    let enc = Encrypter::build("empty_plaintext", "test-user", 512).unwrap();
    let cipher = enc.encrypt_serded(&[]).unwrap();
    assert_eq!(cipher.len(), 0);
    let back = enc.decrypt(&[]).unwrap();
    assert_eq!(back.len(), 0);
}

#[test]
fn exact_chunk_boundary() {
    let enc = Encrypter::build("exact_chunk_boundary", "test-user", 512).unwrap();
    let kb = enc.key_bytes();
    let chunk = kb - 11;
    let plain = vec![7u8; chunk];
    let cipher = enc.encrypt_serded(&plain).unwrap();
    assert_eq!(cipher.len(), kb);
    assert_eq!(enc.decrypt(&cipher).unwrap(), plain);
}

// what each credential-store fetch outcome means: a store failure is the
// keyring error, undecodable stored text the decode error, and a missing
// entry a freshly generated key
#[test]
fn build_from_fetch_taxonomy() {
    let failed = Encrypter::build_from_fetch(PasswordFetch::Failed, 512);
    assert!(matches!(failed, Err(ConfigError::KeyringError)));

    let text = "not a stored key".to_string();
    let undecodable = Encrypter::build_from_fetch(PasswordFetch::Found(text), 512);
    assert!(matches!(undecodable, Err(ConfigError::LoadEncrypterFailed)));

    let generated = Encrypter::build_from_fetch(PasswordFetch::Missing, 512).unwrap();
    assert_eq!(generated.key_bytes(), 64);
}

#[test]
fn invalid_ciphertext_refused() {
    let enc = Encrypter::build("invalid_ciphertext", "test-user", 512).unwrap();
    let garbage = vec![0xffu8; enc.key_bytes()];
    let refused = enc.decrypt(&garbage);
    assert!(matches!(refused, Err(ConfigError::EncryptionError)));
}
