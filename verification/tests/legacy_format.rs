use napqes::{
    decrypt, decrypt_bytes, decrypt_raw, encrypt_bytes, encrypt_bytes_with_nonce, encrypt_raw,
    MAX_PLAINTEXT_CODEPOINTS, NONCE_SIZE, TAG_SIZE,
};

fn test_key() -> Vec<u64> {
    vec![
        1_000_003, 1_000_033, 1_000_037, 1_000_039, 1_000_081, 1_000_099, 1_000_117, 1_000_121,
        1_000_133, 1_000_151,
    ]
}

#[test]
fn roundtrip_bytes() {
    let k = test_key();
    let msg = "Hello, EpiCypher!";
    let ct = encrypt_bytes(msg, &k, b"").unwrap();
    let pt = decrypt_bytes(&ct, &k, b"").unwrap();
    assert_eq!(pt, msg);
}

#[test]
fn wrong_aad_fails() {
    let k = test_key();
    let ct = encrypt_bytes("secret", &k, b"good").unwrap();
    assert!(decrypt_bytes(&ct, &k, b"bad").is_err());
}

#[test]
fn tamper_fails() {
    let k = test_key();
    let mut ct = encrypt_bytes("secret", &k, b"").unwrap();
    let last = ct.len() - 1;
    ct[last] ^= 0x01;
    assert!(decrypt_bytes(&ct, &k, b"").is_err());
}

#[test]
fn empty_ciphertext_is_rejected() {
    let k = test_key();
    assert!(decrypt_bytes(&[], &k, b"").is_err());
    assert!(decrypt_raw(&[], &k, b"").is_err());
}

#[test]
fn empty_message_ciphertext_authenticates() {
    let k = test_key();
    let mut ct = encrypt_bytes("", &k, b"").unwrap();
    let last = ct.len() - 1;
    ct[last] ^= 0x01;
    assert!(decrypt_bytes(&ct, &k, b"").is_err());
}

#[test]
fn empty_message_round_trips_with_header_and_tag() {
    let k = test_key();
    let ct = encrypt_bytes("", &k, b"").unwrap();
    assert!(ct.len() >= NONCE_SIZE + TAG_SIZE);
    assert_eq!(decrypt_bytes(&ct, &k, b"").unwrap(), "");
}

#[test]
fn cvf14_encrypt_bytes_ciphertext_is_rejected_by_decrypt_raw_for_non_ascii() {
    let k = test_key();
    let ct = encrypt_bytes("\u{0100}", &k, b"").unwrap();
    let err = decrypt_raw(&ct, &k, b"").unwrap_err();
    assert!(
        err.contains("byte range") || err.contains("CVF-14"),
        "decrypt_raw must report a range error (got: {})",
        err
    );
}

#[test]
fn cvf14_encrypt_raw_ciphertext_still_roundtrips_via_decrypt_raw() {
    let k = test_key();
    let data: Vec<u8> = (0u8..=255).collect();
    let ct = encrypt_raw(&data, &k, b"aad").unwrap();
    let recovered = decrypt_raw(&ct, &k, b"aad").unwrap();
    assert_eq!(recovered, data);
}

#[test]
fn cvf14_encrypt_bytes_roundtrip_via_decrypt_bytes_unchanged() {
    let k = test_key();
    let msg = "hello \u{00E9} world \u{1F600}";
    let ct = encrypt_bytes(msg, &k, b"aad").unwrap();
    let recovered = decrypt_bytes(&ct, &k, b"aad").unwrap();
    assert_eq!(recovered, msg);
}

#[test]
fn cvf14_decrypt_returns_result_not_panic() {
    let k = test_key();
    let bogus_tokens = vec![0u64; 20];
    let bogus_nonce = [0u8; NONCE_SIZE];
    let result = decrypt(&bogus_nonce, &bogus_tokens, &k);
    assert!(result.is_err(), "decrypt of bogus tokens must return Err, got: {:?}", result);
}

#[test]
fn cvf15_v7_encrypt_bytes_rejects_empty_key() {
    let err = encrypt_bytes("hi", &[], b"").unwrap_err();
    assert!(err.contains("non-empty"), "expected empty-key error, got: {}", err);
}

#[test]
fn cvf15_v7_decrypt_bytes_rejects_empty_key() {
    let err = decrypt_bytes(&[0u8; 100], &[], b"").unwrap_err();
    assert!(err.contains("non-empty"), "expected empty-key error, got: {}", err);
}

#[test]
fn cvf15_v7_encrypt_bytes_rejects_composite_element() {
    let err = encrypt_bytes("hi", &[1_000_000u64], b"").unwrap_err();
    assert!(err.contains("not prime"), "expected primality error, got: {}", err);
}

#[test]
fn cvf15_v7_encrypt_bytes_rejects_element_below_min() {
    let err = encrypt_bytes("hi", &[3u64], b"").unwrap_err();
    assert!(err.contains("minimum"), "expected minimum-size error, got: {}", err);
}

#[test]
fn cvf15_v7_encrypt_bytes_rejects_duplicate() {
    let err = encrypt_bytes("hi", &[1_000_003u64, 1_000_003u64], b"").unwrap_err();
    assert!(err.contains("duplicate"), "expected duplicate error, got: {}", err);
}

#[test]
fn cvf15_v7_encrypt_raw_rejects_composite_element() {
    let err = encrypt_raw(&[0x42u8], &[1_000_000u64], b"").unwrap_err();
    assert!(err.contains("not prime"), "expected primality error, got: {}", err);
}

#[test]
fn cvf15_v7_decrypt_raw_rejects_bad_key() {
    let err = decrypt_raw(&[0u8; 100], &[], b"").unwrap_err();
    assert!(err.contains("non-empty"), "expected empty-key error, got: {}", err);
}

#[test]
fn cvf15_v7_decrypt_rejects_bad_key() {
    let err = decrypt(&[0u8; NONCE_SIZE], &[0u64; 20], &[]).unwrap_err();
    assert!(err.contains("non-empty"), "expected empty-key error, got: {}", err);
}

#[test]
fn cvf34_v7_encrypt_bytes_rejects_oversize_message() {
    let k = test_key();
    let too_long: String = "A".repeat(MAX_PLAINTEXT_CODEPOINTS + 1);
    let err = encrypt_bytes(&too_long, &k, b"").unwrap_err();
    assert!(err.contains("MAX_PLAINTEXT_CODEPOINTS"), "got: {}", err);
}

#[test]
fn cvf34_v7_encrypt_raw_rejects_oversize_data() {
    let k = test_key();
    let too_long = vec![0x41u8; MAX_PLAINTEXT_CODEPOINTS + 1];
    let err = encrypt_raw(&too_long, &k, b"").unwrap_err();
    assert!(err.contains("MAX_PLAINTEXT_CODEPOINTS"), "got: {}", err);
}

#[test]
fn cvf46_v7_encryptors_share_emitter() {
    let key = test_key();
    let msg = "hello CVF-46";
    let aad = b"aad-check";
    let nonce = [0x9c; NONCE_SIZE];
    let a = encrypt_bytes_with_nonce(msg, &key, nonce, aad);
    let b = encrypt_bytes_with_nonce(msg, &key, nonce, aad);
    assert_eq!(a, b, "same inputs must give byte-identical output");
    let c = encrypt_bytes_with_nonce("hello CVF-46!", &key, nonce, aad);
    assert_ne!(a, c);
}

#[test]
fn cvf16_validate_key_rejects_element_above_max_key_prime() {
    let err = encrypt_bytes("hi", &[15_000_017u64], b"").unwrap_err();
    assert!(err.contains("MAX_KEY_PRIME"), "expected upper-bound error naming MAX_KEY_PRIME, got: {}", err);
}

#[test]
fn fixed_nonce_ciphertext_decrypts_and_carries_nonce() {
    let key = test_key();
    let nonce = [0x5a; NONCE_SIZE];
    let ct = encrypt_bytes_with_nonce("fixed nonce", &key, nonce, b"x");
    assert_eq!(&ct[..NONCE_SIZE], &nonce);
    assert_eq!(decrypt_bytes(&ct, &key, b"x").unwrap(), "fixed nonce");
    // The length is nonce + 8 bytes per token + tag.
    assert_eq!((ct.len() - NONCE_SIZE - TAG_SIZE) % 8, 0);
}

#[test]
fn short_ciphertext_message_names_the_length() {
    let key = test_key();
    let err = decrypt_bytes(&[0u8; 47], &key, b"").unwrap_err();
    assert_eq!(err, "Ciphertext too short: 47 bytes; header+tag require at least 48.");
}

#[test]
fn validate_key_messages_are_exact() {
    assert_eq!(
        napqes::validate_key(&[]).unwrap_err(),
        "Key must be a non-empty list of primes."
    );
    assert_eq!(
        napqes::validate_key(&[1_000_003, 4]).unwrap_err(),
        "Key element at index 1 (4) is not prime."
    );
    assert_eq!(
        napqes::validate_key(&[7]).unwrap_err(),
        "Key element at index 0 (7) is below the minimum of 1000000."
    );
    assert_eq!(
        napqes::validate_key(&[1_000_037, 1_000_003, 1_000_037, 1_000_003]).unwrap_err(),
        "Key element 1000003 is a duplicate; all elements must be distinct."
    );
    assert!(napqes::validate_key(&test_key()).is_ok());
}
