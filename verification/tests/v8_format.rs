use napqes::{
    decrypt_bytes_v8, decrypt_bytes_v8_key, encrypt_bytes_v8, encrypt_bytes_v8_key,
    encrypt_bytes_v8_with_profile, NapqesKey, PadProfile, ASCII_PRINTABLE_BASE, DEFAULT_KEY_COUNT,
    MAX_KEY_ELEMENTS, NOISE_ALPHABET, NONCE_SIZE, PAD_ALPHABET, PAD_MAX_EXP, PAD_MIN_EXP, SK_SIZE,
};

fn test_key() -> Vec<u64> {
    vec![
        1_000_003, 1_000_033, 1_000_037, 1_000_039, 1_000_081, 1_000_099, 1_000_117, 1_000_121,
        1_000_133, 1_000_151,
    ]
}

fn test_sk() -> [u8; SK_SIZE] {
    [0x42u8; SK_SIZE]
}

#[test]
fn v8_roundtrip() {
    let primes = test_key();
    let sk = test_sk();
    let msg = "Hello, misuse-resistant EpiCypher!";
    let ct = encrypt_bytes_v8(msg, &primes, &sk, b"aad").unwrap();
    let pt = decrypt_bytes_v8(&ct, &primes, &sk, b"aad").unwrap();
    assert_eq!(pt, msg);
}

#[test]
fn v8_wrong_aad_fails() {
    let primes = test_key();
    let sk = test_sk();
    let ct = encrypt_bytes_v8("secret", &primes, &sk, b"good").unwrap();
    assert!(decrypt_bytes_v8(&ct, &primes, &sk, b"bad").is_err());
}

#[test]
fn v8_tamper_fails() {
    let primes = test_key();
    let sk = test_sk();
    let mut ct = encrypt_bytes_v8("secret", &primes, &sk, b"").unwrap();
    let last = ct.len() - 1;
    ct[last] ^= 0x01;
    assert!(decrypt_bytes_v8(&ct, &primes, &sk, b"").is_err());
}

#[test]
fn v8_same_message_is_deterministic() {
    let primes = test_key();
    let sk = test_sk();
    let ct1 = encrypt_bytes_v8("repeat me", &primes, &sk, b"aad").unwrap();
    let ct2 = encrypt_bytes_v8("repeat me", &primes, &sk, b"aad").unwrap();
    assert_eq!(ct1, ct2);
}

#[test]
fn v8_distinct_messages_have_distinct_nonces() {
    let primes = test_key();
    let sk = test_sk();
    let ct1 = encrypt_bytes_v8("message one", &primes, &sk, b"aad").unwrap();
    let ct2 = encrypt_bytes_v8("message two", &primes, &sk, b"aad").unwrap();
    assert_ne!(&ct1[..NONCE_SIZE], &ct2[..NONCE_SIZE]);
}

#[test]
fn cvf31_block_size_rejects_oversized_n() {
    let bucket = PadProfile::Bucket;
    let err = bucket.block_size(1usize << PAD_MAX_EXP).unwrap_err();
    assert!(err.contains("maximum bucket"), "got: {}", err);
    let coarse = PadProfile::Coarse(3);
    let err = coarse.block_size(1usize << PAD_MAX_EXP).unwrap_err();
    assert!(err.contains("maximum bucket"), "got: {}", err);
}

#[test]
fn cvf42_named_alphabet_constants_are_correct() {
    assert_eq!(NOISE_ALPHABET, 96);
    assert_eq!(PAD_ALPHABET, 95);
    assert_eq!(ASCII_PRINTABLE_BASE, 32);
}

#[test]
fn napqeskey_constructor_validates() {
    let k = NapqesKey::generate().unwrap();
    assert_eq!(k.k(), DEFAULT_KEY_COUNT);
    assert!(k.primes().len() == DEFAULT_KEY_COUNT);
    assert_eq!(k.sk().len(), SK_SIZE);
}

#[test]
fn napqeskey_constructor_rejects_empty_primes() {
    let err = match NapqesKey::new(vec![], [0u8; SK_SIZE]) {
        Err(e) => e,
        Ok(_) => panic!("empty prime tuple accepted"),
    };
    assert!(err.contains("non-empty"), "got: {}", err);
}

#[test]
fn napqeskey_constructor_rejects_composite() {
    let err = match NapqesKey::new(vec![1_000_000u64], [0u8; SK_SIZE]) {
        Err(e) => e,
        Ok(_) => panic!("composite prime tuple accepted"),
    };
    assert!(err.contains("not prime"), "got: {}", err);
}

#[test]
fn napqeskey_encrypt_decrypt_roundtrip_via_key_api() {
    let k = NapqesKey::generate().unwrap();
    let msg = "hello via NapqesKey";
    let ct = encrypt_bytes_v8_key(msg, &k, b"aad").unwrap();
    let pt = decrypt_bytes_v8_key(&ct, &k, b"aad").unwrap();
    assert_eq!(pt, msg);
}

#[test]
fn napqeskey_matches_bare_slice_api_byte_for_byte() {
    let k = NapqesKey::generate().unwrap();
    let msg = "byte parity check";
    let via_key = encrypt_bytes_v8_key(msg, &k, b"aad").unwrap();
    let via_slice = encrypt_bytes_v8(msg, k.primes(), k.sk(), b"aad").unwrap();
    assert_eq!(via_key, via_slice);
}

#[test]
fn cvf41_validate_key_rejects_key_above_max_elements() {
    let primes: Vec<u64> = (0..(MAX_KEY_ELEMENTS + 1))
        .map(|i| 1_000_003u64 + (i as u64) * 30)
        .collect();
    let err = encrypt_bytes_v8("hi", &primes, &[0u8; SK_SIZE], b"").unwrap_err();
    assert!(
        err.contains("MAX_KEY_ELEMENTS") || err.contains("not prime"),
        "expected upper-bound or primality error, got: {}",
        err
    );
}

#[test]
fn pad_profile_bucket_matches_legacy_ladder() {
    for n in 0..2048usize {
        let legacy = if n == 0 {
            16usize
        } else {
            let bl = 64 - (n as u64).leading_zeros() as usize;
            (1usize << bl).max(16)
        };
        assert_eq!(PadProfile::Bucket.block_size(n).unwrap(), legacy, "n={}", n);
    }
}

#[test]
fn pad_profiles_share_one_reachable_set() {
    let legal: std::collections::HashSet<usize> =
        (PAD_MIN_EXP..=PAD_MAX_EXP).map(|e| 1usize << e).collect();
    assert_eq!(legal.len(), 13);
    for n in (0..0xFFFFusize).step_by(97) {
        for p in [
            PadProfile::Bucket,
            PadProfile::Coarse(2),
            PadProfile::Coarse(3),
            PadProfile::Coarse(12),
        ] {
            let b = p.block_size(n).unwrap();
            assert!(legal.contains(&b), "profile {:?} produced B={} for n={}", p, b, n);
            assert!(b > n, "profile {:?} produced B={} <= n={}", p, b, n);
        }
    }
}

#[test]
fn pad_profile_coarse_stride_must_divide_twelve() {
    assert!(PadProfile::Coarse(5).block_size(3).is_err());
    assert!(PadProfile::Coarse(0).block_size(3).is_err());
    for g in [1u32, 2, 3, 4, 6, 12] {
        assert!(PadProfile::Coarse(g).block_size(3).is_ok());
    }
    assert_eq!(PadProfile::Coarse(3).block_size(200).unwrap(), 1 << 10);
}

#[test]
fn pad_profile_frame_is_constant_and_range_checked() {
    for n in [0usize, 1, 100, 511] {
        assert_eq!(PadProfile::Frame(512).block_size(n).unwrap(), 512);
    }
    assert!(PadProfile::Frame(512).block_size(512).is_err());
    assert!(PadProfile::Frame(1000).block_size(1).is_err());
    assert!(PadProfile::Frame(8).block_size(1).is_err());
    assert!(PadProfile::Frame(1 << 17).block_size(1).is_err());
}

#[test]
fn v8_roundtrip_beyond_ascii() {
    let primes = test_key();
    let sk = test_sk();
    for msg in ["\u{0080}", "\u{0100}", "\u{1F600}", "A\u{0080}\u{0100}\u{1F600}Z", ""] {
        let ct = encrypt_bytes_v8(msg, &primes, &sk, b"aad").unwrap();
        assert_eq!(decrypt_bytes_v8(&ct, &primes, &sk, b"aad").unwrap(), msg);
    }
}

#[test]
fn v8_length_depends_only_on_bucket() {
    let primes = test_key();
    let sk = test_sk();
    // Bucket 16 holds messages of 0..=15 code points: 18 real tokens, 20 tokens each.
    for msg in ["", "a", "fifteen chars!!"] {
        let ct = encrypt_bytes_v8(msg, &primes, &sk, b"").unwrap();
        assert_eq!(ct.len(), 16 + 18 * 20 * 8 + 32);
    }
    let ct = encrypt_bytes_v8("sixteen chars!!!", &primes, &sk, b"").unwrap();
    assert_eq!(ct.len(), 16 + 34 * 20 * 8 + 32);
}

#[test]
fn v8_frame_profile_collapses_lengths_and_decrypts() {
    let primes = test_key();
    let sk = test_sk();
    let mut lengths = std::collections::HashSet::new();
    for n in [1usize, 5, 40, 200, 511] {
        let msg = "a".repeat(n);
        let ct = encrypt_bytes_v8_with_profile(&msg, &primes, &sk, b"", PadProfile::Frame(512)).unwrap();
        lengths.insert(ct.len());
        assert_eq!(decrypt_bytes_v8(&ct, &primes, &sk, b"").unwrap(), msg);
    }
    assert_eq!(lengths.len(), 1);
    assert!(encrypt_bytes_v8_with_profile(&"a".repeat(600), &primes, &sk, b"", PadProfile::Frame(512)).is_err());
}

#[test]
fn v8_errors_are_exact() {
    let primes = test_key();
    let sk = test_sk();
    assert_eq!(
        decrypt_bytes_v8(&[0u8; 10], &primes, &sk, b"").unwrap_err(),
        "Ciphertext too short: 10 bytes; header+tag require at least 48."
    );
    assert_eq!(
        decrypt_bytes_v8(&[0u8; 60], &primes, &sk, b"").unwrap_err(),
        "Authentication failed: invalid HMAC tag."
    );
    let too_long = "x".repeat(0x1_0000);
    assert_eq!(
        encrypt_bytes_v8(&too_long, &primes, &sk, b"").unwrap_err(),
        "Message too long: 65536 codepoints exceeds MAX_PLAINTEXT_CODEPOINTS (65535)"
    );
    assert_eq!(
        PadProfile::Coarse(5).block_size(3).unwrap_err(),
        "coarse stride g=5 must divide 12."
    );
    assert_eq!(
        PadProfile::Frame(512).block_size(512).unwrap_err(),
        "frame(512) profile admits messages of at most 511 codepoints; got 512. Use a larger frame."
    );
}

#[test]
fn v8_wrong_key_fails() {
    let primes = test_key();
    let sk = test_sk();
    let ct = encrypt_bytes_v8("secret", &primes, &sk, b"").unwrap();
    let mut other_sk = sk;
    other_sk[0] ^= 1;
    assert!(decrypt_bytes_v8(&ct, &primes, &other_sk, b"").is_err());
}
