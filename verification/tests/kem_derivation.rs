use napqes::kem::expand_seed_to_primes;
use napqes::{
    decapsulate, decapsulate_hybrid, derive_napqes_key, derive_napqes_key_hybrid, encapsulate,
    encapsulate_hybrid, hybrid_transcript, is_prime, keygen, keygen_hybrid, validate_key,
    FRODO_CIPHERTEXT_SIZE, HYBRID_CIPHERTEXT_SIZE, HYBRID_PUBLIC_KEY_SIZE, HYBRID_SECRET_KEY_SIZE,
    MAX_PRIME, MIN_PRIME, NAPQES_KEY_COUNT,
};
use std::collections::HashSet;

#[test]
fn test_roundtrip() {
    let (pk, sk) = keygen();
    let (ct, key_bob) = encapsulate(&pk).expect("encapsulate");
    let key_alice = decapsulate(&ct, &sk).expect("decapsulate");
    assert_eq!(key_bob, key_alice);
}

#[test]
fn test_key_count() {
    let (pk, _) = keygen();
    let (_, key) = encapsulate(&pk).expect("encapsulate");
    assert_eq!(key.len(), NAPQES_KEY_COUNT);
}

#[test]
fn test_key_elements_in_range() {
    let (pk, _) = keygen();
    let (_, key) = encapsulate(&pk).expect("encapsulate");
    for &p in &key {
        assert!(p >= MIN_PRIME && p < MAX_PRIME);
    }
}

#[test]
fn test_key_elements_distinct() {
    let (pk, _) = keygen();
    let (_, key) = encapsulate(&pk).expect("encapsulate");
    let unique: HashSet<u64> = key.iter().copied().collect();
    assert_eq!(unique.len(), key.len());
}

#[test]
fn test_key_elements_are_prime() {
    let (pk, _) = keygen();
    let (_, key) = encapsulate(&pk).expect("encapsulate");
    assert!(key.iter().all(|&p| is_prime(p)));
}

#[test]
fn test_derive_is_deterministic() {
    let secret = b"test-shared-secret-16b";
    let key1 = derive_napqes_key(secret);
    let key2 = derive_napqes_key(secret);
    assert_eq!(key1, key2);
}

#[test]
fn test_different_secrets_give_different_keys() {
    let key1 = derive_napqes_key(b"aaaaaaaaaaaaaaaa");
    let key2 = derive_napqes_key(b"bbbbbbbbbbbbbbbb");
    assert_ne!(key1, key2);
}

#[test]
fn test_wrong_sk_gives_different_key() {
    let (pk, _sk) = keygen();
    let (ct, key_bob) = encapsulate(&pk).expect("encapsulate");
    let (_, wrong_sk) = keygen();
    let key_wrong = decapsulate(&ct, &wrong_sk).expect("decapsulate with wrong sk");
    assert_ne!(key_wrong, key_bob);
}

#[test]
fn test_derive_hybrid_cross_language_vector() {
    let transcript = hybrid_transcript(b"PK-PQ", b"CT-PQ", b"PK-EC-STATIC", b"PK-EC-EPH");
    let expected_transcript = "763200000005504b2d50510000000543542d50510000000c\
                               504b2d45432d53544154494300000009504b2d45432d455048";
    let hex: String = transcript.iter().map(|b| format!("{:02x}", b)).collect();
    assert_eq!(hex, expected_transcript.replace(['\\', ' ', '\n'], ""));

    let ss_ec: Vec<u8> = (1u8..=32).collect();
    let key = derive_napqes_key_hybrid(&[0u8; 16], &ss_ec, &transcript).expect("hybrid derivation");
    assert_eq!(
        key,
        vec![
            2992559, 2913523, 2740301, 1977709, 5330359, 13077137, 6210319, 11896091, 14291593,
            8698397, 12129883, 1604143, 10450267,
        ]
    );
}

#[test]
fn test_hybrid_roundtrip() {
    let (pk, sk) = keygen_hybrid();
    assert_eq!(pk.len(), HYBRID_PUBLIC_KEY_SIZE);
    assert_eq!(sk.len(), HYBRID_SECRET_KEY_SIZE);
    let (ct, key_bob) = encapsulate_hybrid(&pk).expect("encapsulate_hybrid");
    assert_eq!(ct.len(), HYBRID_CIPHERTEXT_SIZE);
    let key_alice = decapsulate_hybrid(&ct, &sk).expect("decapsulate_hybrid");
    assert_eq!(key_bob, key_alice);
    assert_eq!(key_bob.len(), NAPQES_KEY_COUNT);
    assert!(key_bob.iter().all(|&p| is_prime(p) && (MIN_PRIME..MAX_PRIME).contains(&p)));
}

#[test]
fn test_hybrid_each_session_is_fresh() {
    let (pk, _) = keygen_hybrid();
    let (_, key1) = encapsulate_hybrid(&pk).expect("encapsulate_hybrid");
    let (_, key2) = encapsulate_hybrid(&pk).expect("encapsulate_hybrid");
    assert_ne!(key1, key2);
}

#[test]
fn test_hybrid_transcript_binds_the_classical_half() {
    let (pk, sk) = keygen_hybrid();
    let (ct1, key1) = encapsulate_hybrid(&pk).expect("encapsulate_hybrid");
    let (ct2, _) = encapsulate_hybrid(&pk).expect("encapsulate_hybrid");
    let mut spliced = ct1[..FRODO_CIPHERTEXT_SIZE].to_vec();
    spliced.extend_from_slice(&ct2[FRODO_CIPHERTEXT_SIZE..]);
    let derived = decapsulate_hybrid(&spliced, &sk).expect("decapsulate_hybrid");
    assert_ne!(derived, key1);
}

#[test]
fn test_hybrid_rejects_all_zero_x25519_secret() {
    let err = derive_napqes_key_hybrid(&[0u8; 16], &[0u8; 32], b"info")
        .expect_err("all-zero X25519 output must be rejected");
    assert!(err.contains("all-zero"), "unexpected error: {}", err);
}

#[test]
fn test_hybrid_rejects_malformed_blobs() {
    let (pk, sk) = keygen_hybrid();
    let (ct, _) = encapsulate_hybrid(&pk).expect("encapsulate_hybrid");
    assert!(encapsulate_hybrid(&pk[..pk.len() - 1]).is_err());
    assert!(decapsulate_hybrid(&ct[..ct.len() - 1], &sk).is_err());
    assert!(decapsulate_hybrid(&ct, &sk[..sk.len() - 1]).is_err());
}

#[test]
fn test_hybrid_and_frodo_only_are_domain_separated() {
    let ss_pq: Vec<u8> = (0u8..16).collect();
    let ss_ec: Vec<u8> = (1u8..=32).collect();
    let legacy = derive_napqes_key(&ss_pq);
    let hybrid = derive_napqes_key_hybrid(&ss_pq, &ss_ec, b"v2").expect("hybrid");
    assert_ne!(legacy, hybrid);
}

#[test]
fn test_key_sizes() {
    let (pk, sk) = keygen();
    let (ct, _) = encapsulate(&pk).expect("encapsulate");
    assert_eq!(pk.len(), 9616);
    assert_eq!(sk.len(), 19888);
    assert_eq!(ct.len(), 9720);
}

#[test]
fn test_derive_cross_language_vector() {
    let secret = [0u8; 16];
    let key = derive_napqes_key(&secret);
    let expected: Vec<u64> = vec![
        11530619, 13297909, 9920357, 13069411, 5196311, 6762001, 12497731, 7518361, 12559777,
        1531199, 14203867, 10311841, 13788101,
    ];
    assert_eq!(key, expected, "cross-language derivation mismatch");
}

// --- further cases --------------------------------------------------------

#[test]
fn derived_key_is_a_valid_napqes_key() {
    let key = derive_napqes_key(&[7u8; 16]);
    assert_eq!(key.len(), NAPQES_KEY_COUNT);
    assert!(validate_key(&key).is_ok());
}

#[test]
fn expansion_of_a_seed_is_deterministic_and_ordered() {
    let seed = [0x5Au8; 32];
    let a = expand_seed_to_primes(&seed);
    let b = expand_seed_to_primes(&seed);
    assert_eq!(a, b);
    assert_eq!(a.len(), NAPQES_KEY_COUNT);
    let mut other = seed;
    other[31] ^= 1;
    assert_ne!(expand_seed_to_primes(&other), a);
}

#[test]
fn kem_error_messages() {
    assert_eq!(encapsulate(&[0u8; 10]).unwrap_err(), "invalid FrodoKEM-640-AES public key");
    let (_, sk) = keygen();
    assert_eq!(decapsulate(&[0u8; 10], &sk).unwrap_err(), "invalid FrodoKEM-640-AES ciphertext");
    assert_eq!(
        decapsulate(&[0u8; 9720], &sk[..100]).unwrap_err(),
        "invalid FrodoKEM-640-AES secret key"
    );
    assert_eq!(
        encapsulate_hybrid(&[0u8; 3]).unwrap_err(),
        "Hybrid public key must be 9648 bytes, got 3"
    );
    assert_eq!(
        decapsulate_hybrid(&[0u8; 3], &[0u8; 3]).unwrap_err(),
        "Hybrid ciphertext must be 9752 bytes, got 3"
    );
    assert_eq!(
        decapsulate_hybrid(&[0u8; 9752], &[0u8; 3]).unwrap_err(),
        "Hybrid secret key must be 29536 bytes, got 3"
    );
    assert_eq!(
        derive_napqes_key_hybrid(&[0u8; 16], &[1u8; 31], b"").unwrap_err(),
        "X25519 shared secret must be 32 bytes, got 31"
    );
}

#[test]
fn hybrid_key_pair_layout() {
    let (pk, sk) = keygen_hybrid();
    // The FrodoKEM public key is carried at the end of the secret key.
    assert_eq!(&pk[..9616], &sk[19920..]);
}
