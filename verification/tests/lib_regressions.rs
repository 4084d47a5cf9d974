use base64::engine::general_purpose::STANDARD;
use base64::Engine;
use napqes::derive::key_bytes;
use napqes::primes::keep_prime_draw;
use napqes::{
    ct_eq_bytes, decrypt_bytes, decrypt_bytes_v8, decrypt_str, encrypt_bytes_v8,
    encrypt_bytes_v8_with_profile, encrypt_str, generate_prime_numbers, generate_v8_key, is_prime,
    validate_key, zeroize_key, zeroize_sk, PadProfile, DEFAULT_KEY_COUNT, MAX_KEY_PRIME,
    MIN_KEY_PRIME, NONCE_SIZE, SK_SIZE, TAG_SIZE,
};

fn regression_key() -> Vec<u64> {
    vec![
        1_000_003, 1_000_033, 1_000_037, 1_000_039, 1_000_081, 1_000_099, 1_000_117, 1_000_121,
        1_000_133, 1_000_151,
    ]
}

#[test]
fn roundtrip_str_with_aad() {
    let k = regression_key();
    let msg = "Authenticated payload";
    let aad = b"hdr=1";
    let ct = encrypt_str(msg, &k, aad).unwrap();
    let pt = decrypt_str(&ct, &k, aad).unwrap();
    assert_eq!(pt, msg);
}

#[test]
fn empty_message_roundtrip() {
    let k = regression_key();
    let ct_b64 = encrypt_str("", &k, b"").unwrap();
    let ct = STANDARD.decode(ct_b64.as_bytes()).expect("base64");
    assert!(
        ct.len() >= NONCE_SIZE + TAG_SIZE,
        "empty-message ciphertext must at least carry nonce+tag; got {} bytes",
        ct.len()
    );
    assert_eq!(
        decrypt_bytes(&ct, &k, b"").unwrap(),
        "",
        "round-trip through real tag verification must recover the empty string"
    );
}

#[test]
fn ct_eq_bytes_equal_length_matches() {
    let a = [0x11u8; 32];
    let b = [0x11u8; 32];
    assert!(ct_eq_bytes(&a, &b));
}

#[test]
fn ct_eq_bytes_equal_length_differs() {
    let a = [0x11u8; 32];
    let mut b = [0x11u8; 32];
    b[17] ^= 0x01;
    assert!(!ct_eq_bytes(&a, &b));
}

#[test]
fn ct_eq_bytes_length_mismatch_returns_false() {
    let a = [0x11u8; 32];
    let short = [0x11u8; 16];
    assert!(
        !ct_eq_bytes(&a, &short),
        "shorter operand with matching prefix must not report equality (CVF-12)"
    );
    assert!(
        !ct_eq_bytes(&short, &a),
        "longer operand with matching prefix must not report equality (CVF-12)"
    );
    let empty: [u8; 0] = [];
    assert!(
        !ct_eq_bytes(&a, &empty),
        "empty operand against non-empty must not report equality (CVF-12)"
    );
    assert!(ct_eq_bytes(&empty, &empty));
}

#[test]
fn cvf45_ct_eq_bytes_nonce_length_fails_closed() {
    let a = [0xAAu8; NONCE_SIZE];
    let mut b = [0xAAu8; NONCE_SIZE];
    assert!(ct_eq_bytes(&a, &b), "equal nonces must match");
    b[8] ^= 0x01;
    assert!(!ct_eq_bytes(&a, &b), "single bit flip in nonce must fail");
    let tag = [0xAAu8; TAG_SIZE];
    assert!(!ct_eq_bytes(&a, &tag));
    assert!(!ct_eq_bytes(&tag, &a));
}

#[test]
fn cvf15_v7_encrypt_str_rejects_bad_key_before_base64() {
    let err = encrypt_str("hi", &[], b"").unwrap_err();
    assert!(err.contains("non-empty"), "expected empty-key error, got: {}", err);
}

#[test]
fn cvf15_v7_decrypt_str_rejects_bad_key_before_base64() {
    let err = decrypt_str("YQ==", &[], b"").unwrap_err();
    assert!(err.contains("non-empty"), "expected empty-key error, got: {}", err);
}

#[test]
fn cvf25_v8_roundtrip_first_non_ascii_codepoint() {
    let (primes, sk) = generate_v8_key(DEFAULT_KEY_COUNT, MIN_KEY_PRIME, MAX_KEY_PRIME);
    let msg = "\u{0080}";
    let ct = encrypt_bytes_v8(msg, &primes, &sk, b"").unwrap();
    assert_eq!(decrypt_bytes_v8(&ct, &primes, &sk, b"").unwrap(), msg);
}

#[test]
fn cvf25_v8_roundtrip_bmp_above_0100() {
    let (primes, sk) = generate_v8_key(DEFAULT_KEY_COUNT, MIN_KEY_PRIME, MAX_KEY_PRIME);
    let msg = "\u{0100}";
    let ct = encrypt_bytes_v8(msg, &primes, &sk, b"").unwrap();
    assert_eq!(decrypt_bytes_v8(&ct, &primes, &sk, b"").unwrap(), msg);
}

#[test]
fn cvf25_v8_roundtrip_supplementary_plane() {
    let (primes, sk) = generate_v8_key(DEFAULT_KEY_COUNT, MIN_KEY_PRIME, MAX_KEY_PRIME);
    let msg = "\u{1F600}";
    let ct = encrypt_bytes_v8(msg, &primes, &sk, b"").unwrap();
    assert_eq!(decrypt_bytes_v8(&ct, &primes, &sk, b"").unwrap(), msg);
}

#[test]
fn cvf25_v8_roundtrip_mixed_codepoint_widths() {
    let (primes, sk) = generate_v8_key(DEFAULT_KEY_COUNT, MIN_KEY_PRIME, MAX_KEY_PRIME);
    let msg = "A\u{0080}\u{0100}\u{1F600}Z";
    let ct = encrypt_bytes_v8(msg, &primes, &sk, b"aad").unwrap();
    assert_eq!(decrypt_bytes_v8(&ct, &primes, &sk, b"aad").unwrap(), msg);
}

#[test]
fn cvf20_generate_prime_numbers_produces_valid_key() {
    for _ in 0..8 {
        let ps = generate_prime_numbers(DEFAULT_KEY_COUNT, MIN_KEY_PRIME, MAX_KEY_PRIME);
        assert_eq!(ps.len(), DEFAULT_KEY_COUNT);
        for &p in &ps {
            assert!(is_prime(p), "sampler returned non-prime: {}", p);
            assert!(p >= MIN_KEY_PRIME && p <= MAX_KEY_PRIME);
        }
        let mut sorted = ps.clone();
        sorted.sort();
        sorted.dedup();
        assert_eq!(sorted.len(), ps.len(), "sampler returned duplicates: {:?}", ps);
        validate_key(&ps).expect("sampler output failed validate_key");
    }
}

#[test]
fn cvf43_unpad_rejects_noncanonical_length_prefix() {
    let (primes, sk) = generate_v8_key(DEFAULT_KEY_COUNT, MIN_KEY_PRIME, MAX_KEY_PRIME);
    let msg = "CVF-43 sanity";
    let ct = encrypt_bytes_v8(msg, &primes, &sk, b"").unwrap();
    assert_eq!(decrypt_bytes_v8(&ct, &primes, &sk, b"").unwrap(), msg);
}

#[test]
fn zeroize_key_clears_memory() {
    let mut k = regression_key();
    zeroize_key(&mut k);
    assert!(k.iter().all(|&x| x == 0));
}

#[test]
fn primes_are_prime() {
    let ps = generate_prime_numbers(DEFAULT_KEY_COUNT, MIN_KEY_PRIME, MAX_KEY_PRIME);
    assert_eq!(ps.len(), DEFAULT_KEY_COUNT);
    for p in &ps {
        assert!(is_prime(*p));
    }
}

#[test]
fn v8_ciphertext_length_is_deterministic_across_varied_aad() {
    let mut lengths = std::collections::HashSet::new();
    for i in 0..50u32 {
        let (primes, sk) = generate_v8_key(DEFAULT_KEY_COUNT, MIN_KEY_PRIME, MAX_KEY_PRIME);
        let aad = format!("aad-{}", i);
        let ct = encrypt_bytes_v8("fixed target message", &primes, &sk, aad.as_bytes()).unwrap();
        lengths.insert(ct.len());
    }
    assert_eq!(lengths.len(), 1, "expected one deterministic length, got {:?}", lengths);
}

#[test]
fn v8_zeroize_sk_clears_memory() {
    let mut sk = [0x42u8; SK_SIZE];
    zeroize_sk(&mut sk);
    assert!(sk.iter().all(|&x| x == 0));
}

#[test]
fn v8_key_generation_is_independent() {
    let (primes, sk) = generate_v8_key(DEFAULT_KEY_COUNT, MIN_KEY_PRIME, MAX_KEY_PRIME);
    assert_eq!(primes.len(), DEFAULT_KEY_COUNT);
    assert_ne!(sk.to_vec(), key_bytes(&primes));
}

#[test]
fn v8_frame_profile_hides_length_and_round_trips() {
    let (primes, sk) = generate_v8_key(DEFAULT_KEY_COUNT, MIN_KEY_PRIME, MAX_KEY_PRIME);

    let plain = "short";
    let default_ct = encrypt_bytes_v8(plain, &primes, &sk, b"").unwrap();
    let bucket_ct =
        encrypt_bytes_v8_with_profile(plain, &primes, &sk, b"", PadProfile::Bucket).unwrap();
    assert_eq!(default_ct, bucket_ct, "Bucket must be the default");

    let mut framed_lengths = std::collections::HashSet::new();
    for n in [1usize, 5, 40, 200, 511] {
        let msg = "a".repeat(n);
        let ct = encrypt_bytes_v8_with_profile(&msg, &primes, &sk, b"", PadProfile::Frame(512))
            .unwrap();
        framed_lengths.insert(ct.len());
        assert_eq!(decrypt_bytes_v8(&ct, &primes, &sk, b"").unwrap(), msg);
    }
    assert_eq!(
        framed_lengths.len(),
        1,
        "frame(512) must collapse every length to one, got {:?}",
        framed_lengths
    );

    let mut bucket_lengths = std::collections::HashSet::new();
    for n in [1usize, 5, 40, 200, 511] {
        let msg = "a".repeat(n);
        bucket_lengths.insert(encrypt_bytes_v8(&msg, &primes, &sk, b"").unwrap().len());
    }
    assert!(bucket_lengths.len() > 1);
}

#[test]
fn v8_frame_profile_rejects_oversized_message() {
    let (primes, sk) = generate_v8_key(DEFAULT_KEY_COUNT, MIN_KEY_PRIME, MAX_KEY_PRIME);
    let msg = "a".repeat(600);
    assert!(encrypt_bytes_v8_with_profile(&msg, &primes, &sk, b"", PadProfile::Frame(512)).is_err());
}

// --- further cases --------------------------------------------------------

#[test]
fn base64_text_form_is_standard_and_decode_errors_are_reported() {
    let k = regression_key();
    let text = encrypt_str("x", &k, b"").unwrap();
    let raw = STANDARD.decode(text.as_bytes()).unwrap();
    assert_eq!(STANDARD.encode(&raw), text);
    assert_eq!(decrypt_str(&text, &k, b"").unwrap(), "x");
    let err = decrypt_str("not base64!", &k, b"").unwrap_err();
    assert!(err.starts_with("base64 decode error: "), "got: {}", err);
}

#[test]
fn prime_search_in_all_prime_range_keeps_first_draw() {
    // Every value of [2, 3] is prime, so the first draw is always kept.
    let ps = generate_prime_numbers(1, 2, 3);
    assert_eq!(ps.len(), 1);
    assert!(ps[0] == 2 || ps[0] == 3);
}

#[test]
fn prime_draw_keeps_only_new_primes_up_to_the_count() {
    let mut kept: Vec<u64> = Vec::new();
    keep_prime_draw(&mut kept, 2, 1_000_003);
    assert_eq!(kept, vec![1_000_003]);
    keep_prime_draw(&mut kept, 2, 1_000_003);
    assert_eq!(kept, vec![1_000_003]);
    keep_prime_draw(&mut kept, 2, 1_000_001);
    assert_eq!(kept, vec![1_000_003]);
    keep_prime_draw(&mut kept, 2, 1_000_033);
    assert_eq!(kept, vec![1_000_003, 1_000_033]);
    keep_prime_draw(&mut kept, 2, 1_000_037);
    assert_eq!(kept, vec![1_000_003, 1_000_033]);
}
