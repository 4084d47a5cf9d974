use napqes::{
    decrypt_stream_ae_v8, encrypt_stream_ae_v8, encrypt_stream_ae_v8_with_nonce,
    generate_v8_key, StreamV8Encryptor, DEFAULT_KEY_COUNT, MAX_KEY_PRIME, MIN_KEY_PRIME,
    NONCE_SIZE, SK_SIZE, STREAM_AE_V8_MAX_FRAME, TAG_SIZE,
};

fn kat_primes() -> Vec<u64> {
    vec![
        1_000_003, 1_000_033, 1_000_037, 1_000_039, 1_000_081, 1_000_099, 1_000_117, 1_000_121,
        1_000_133, 1_000_151, 1_000_159, 1_000_171, 1_000_183,
    ]
}

#[test]
fn stream_v8_roundtrip_basic() {
    let (primes, sk) = generate_v8_key(DEFAULT_KEY_COUNT, MIN_KEY_PRIME, MAX_KEY_PRIME);
    let msg = "hello, streaming AE v8!";
    let ct = encrypt_stream_ae_v8(msg, &primes, &sk, b"", 8).unwrap();
    let pt = decrypt_stream_ae_v8(&ct, &primes, &sk, b"").unwrap();
    assert_eq!(pt, msg);
}

#[test]
fn stream_v8_empty_roundtrip() {
    let (primes, sk) = generate_v8_key(DEFAULT_KEY_COUNT, MIN_KEY_PRIME, MAX_KEY_PRIME);
    let ct = encrypt_stream_ae_v8("", &primes, &sk, b"", 8).unwrap();
    // header(21) + sentinel(44) = 65 B, no chunks
    assert_eq!(ct.len(), 21 + 44);
    assert_eq!(decrypt_stream_ae_v8(&ct, &primes, &sk, b"").unwrap(), "");
}

#[test]
fn stream_v8_partial_last_chunk_filler_dropped() {
    let (primes, sk) = generate_v8_key(DEFAULT_KEY_COUNT, MIN_KEY_PRIME, MAX_KEY_PRIME);
    let msg = "A".repeat(11); // F=8, one full chunk + one filler-padded
    let ct = encrypt_stream_ae_v8(&msg, &primes, &sk, b"", 8).unwrap();
    assert_eq!(decrypt_stream_ae_v8(&ct, &primes, &sk, b"").unwrap(), msg);
}

#[test]
fn stream_v8_wrong_sk_fails() {
    let (primes, sk) = generate_v8_key(DEFAULT_KEY_COUNT, MIN_KEY_PRIME, MAX_KEY_PRIME);
    let mut wrong_sk = sk;
    wrong_sk[0] ^= 0x01;
    let ct = encrypt_stream_ae_v8("secret", &primes, &sk, b"", 8).unwrap();
    assert!(decrypt_stream_ae_v8(&ct, &primes, &wrong_sk, b"").is_err());
}

#[test]
fn stream_v8_aad_mismatch_fails() {
    let (primes, sk) = generate_v8_key(DEFAULT_KEY_COUNT, MIN_KEY_PRIME, MAX_KEY_PRIME);
    let ct = encrypt_stream_ae_v8("aad", &primes, &sk, b"right", 8).unwrap();
    assert!(decrypt_stream_ae_v8(&ct, &primes, &sk, b"wrong").is_err());
}

#[test]
fn stream_v8_tamper_chunk_body_fails() {
    let (primes, sk) = generate_v8_key(DEFAULT_KEY_COUNT, MIN_KEY_PRIME, MAX_KEY_PRIME);
    let mut ct = encrypt_stream_ae_v8("tamper", &primes, &sk, b"", 8).unwrap();
    // Header 21 B + be4 chunk_len 4 B -> flip byte in masked body
    ct[21 + 4 + 3] ^= 0xFF;
    assert!(decrypt_stream_ae_v8(&ct, &primes, &sk, b"").is_err());
}

#[test]
fn stream_v8_tamper_sentinel_fails() {
    let (primes, sk) = generate_v8_key(DEFAULT_KEY_COUNT, MIN_KEY_PRIME, MAX_KEY_PRIME);
    let mut ct = encrypt_stream_ae_v8("sentinel", &primes, &sk, b"", 8).unwrap();
    let last = ct.len() - 1;
    ct[last] ^= 0x01;
    assert!(decrypt_stream_ae_v8(&ct, &primes, &sk, b"").is_err());
}

#[test]
fn stream_v8_truncated_before_sentinel_fails() {
    let (primes, sk) = generate_v8_key(DEFAULT_KEY_COUNT, MIN_KEY_PRIME, MAX_KEY_PRIME);
    let ct = encrypt_stream_ae_v8("truncme", &primes, &sk, b"", 8).unwrap();
    // Strip 44-byte sentinel
    let truncated = &ct[..ct.len() - 44];
    assert!(decrypt_stream_ae_v8(truncated, &primes, &sk, b"").is_err());
}

#[test]
fn stream_v8_reorder_fails() {
    let (primes, sk) = generate_v8_key(DEFAULT_KEY_COUNT, MIN_KEY_PRIME, MAX_KEY_PRIME);
    let msg = "ABCDEFGHIJKLMNOP"; // F=4 -> 4 chunks
    let f: u32 = 4;
    let mut ct = encrypt_stream_ae_v8(msg, &primes, &sk, b"", f).unwrap();
    let frame_len = 4 + (f as usize) * 160 + TAG_SIZE;
    let hdr = 21;
    // Swap chunks 0 and 1
    let (before, after) = ct.split_at_mut(hdr);
    let (_hdr, rest) = (before, after);
    let (frames_and_sentinel, _empty) = rest.split_at_mut(rest.len());
    let (frame0, tail) = frames_and_sentinel.split_at_mut(frame_len);
    let (frame1, _rest) = tail.split_at_mut(frame_len);
    for i in 0..frame_len {
        std::mem::swap(&mut frame0[i], &mut frame1[i]);
    }
    assert!(decrypt_stream_ae_v8(&ct, &primes, &sk, b"").is_err());
}

#[test]
fn stream_v8_wrong_format_id_fails() {
    let (primes, sk) = generate_v8_key(DEFAULT_KEY_COUNT, MIN_KEY_PRIME, MAX_KEY_PRIME);
    let mut ct = encrypt_stream_ae_v8("x", &primes, &sk, b"", 8).unwrap();
    ct[0] = 0x01;
    assert!(decrypt_stream_ae_v8(&ct, &primes, &sk, b"").is_err());
}

#[test]
fn stream_v8_length_is_function_of_f_only() {
    let (primes, sk) = generate_v8_key(DEFAULT_KEY_COUNT, MIN_KEY_PRIME, MAX_KEY_PRIME);
    let a = encrypt_stream_ae_v8(&"A".repeat(17), &primes, &sk, b"", 16).unwrap();
    let b = encrypt_stream_ae_v8(&"B".repeat(31), &primes, &sk, b"", 16).unwrap();
    assert_eq!(a.len(), b.len());
}

#[test]
fn stream_v8_frame_out_of_range_rejected() {
    let (primes, sk) = generate_v8_key(DEFAULT_KEY_COUNT, MIN_KEY_PRIME, MAX_KEY_PRIME);
    assert!(encrypt_stream_ae_v8("x", &primes, &sk, b"", 0).is_err());
    assert!(encrypt_stream_ae_v8("x", &primes, &sk, b"", STREAM_AE_V8_MAX_FRAME + 1).is_err());
}

#[test]
fn stream_v8_encryptor_struct_matches_all_at_once() {
    let (primes, sk) = generate_v8_key(DEFAULT_KEY_COUNT, MIN_KEY_PRIME, MAX_KEY_PRIME);
    let msg = "chunk-by-chunk vs all-at-once";
    let (mut enc, header) = StreamV8Encryptor::new(&primes, &sk, b"", 8).unwrap();
    let mut ct = header;
    for c in msg.chars() {
        if let Some(frame) = enc.push(c).unwrap() {
            ct.extend_from_slice(&frame);
        }
    }
    ct.extend_from_slice(&enc.finish().unwrap());
    assert_eq!(decrypt_stream_ae_v8(&ct, &primes, &sk, b"").unwrap(), msg);
}

#[test]
fn stream_v8_deterministic_with_injected_nonce() {
    let primes = kat_primes();
    let sk = [0x11u8; SK_SIZE];
    let nonce = [0x22u8; NONCE_SIZE];
    let a = encrypt_stream_ae_v8_with_nonce("hello v8!", &primes, &sk, &nonce, b"aad", 8).unwrap();
    let b = encrypt_stream_ae_v8_with_nonce("hello v8!", &primes, &sk, &nonce, b"aad", 8).unwrap();
    assert_eq!(a, b);
    assert_eq!(decrypt_stream_ae_v8(&a, &primes, &sk, b"aad").unwrap(), "hello v8!");
}

// --- further cases --------------------------------------------------------

#[test]
fn stream_v8_encryptor_bytes_equal_injected_nonce_stream() {
    let primes = kat_primes();
    let sk = [0x33u8; SK_SIZE];
    let msg = "streamed one character at a time: 0123456789";
    let (mut enc, header) = StreamV8Encryptor::new(&primes, &sk, b"ctx", 5).unwrap();
    let mut nonce = [0u8; NONCE_SIZE];
    nonce.copy_from_slice(&header[5..21]);
    let mut ct = header;
    for c in msg.chars() {
        if let Some(frame) = enc.push(c).unwrap() {
            ct.extend_from_slice(&frame);
        }
    }
    ct.extend_from_slice(&enc.finish().unwrap());
    let all_at_once =
        encrypt_stream_ae_v8_with_nonce(msg, &primes, &sk, &nonce, b"ctx", 5).unwrap();
    assert_eq!(ct, all_at_once);
}

#[test]
fn stream_v8_layout_is_header_frames_sentinel() {
    let primes = kat_primes();
    let sk = [0x44u8; SK_SIZE];
    let nonce = [0x55u8; NONCE_SIZE];
    // 11 code points at F = 4: three chunks.
    let ct = encrypt_stream_ae_v8_with_nonce("abcdefghijk", &primes, &sk, &nonce, b"", 4).unwrap();
    assert_eq!(ct.len(), 21 + 3 * (4 + 4 * 160 + 32) + 44);
    assert_eq!(ct[0], 0x02);
    assert_eq!(&ct[1..5], &[0, 0, 0, 4]);
    assert_eq!(&ct[5..21], &nonce);
    // Every chunk announces 640 bytes; the sentinel announces 0 and 11.
    assert_eq!(&ct[21..25], &[0, 0, 2, 128]);
    let s = ct.len() - 44;
    assert_eq!(&ct[s..s + 4], &[0, 0, 0, 0]);
    assert_eq!(&ct[s + 4..s + 12], &[0, 0, 0, 0, 0, 0, 0, 11]);
}

#[test]
fn stream_v8_every_prefix_is_refused() {
    let primes = kat_primes();
    let sk = [0x66u8; SK_SIZE];
    let nonce = [0x77u8; NONCE_SIZE];
    let ct = encrypt_stream_ae_v8_with_nonce("cut", &primes, &sk, &nonce, b"", 2).unwrap();
    for k in 0..ct.len() {
        assert!(decrypt_stream_ae_v8(&ct[..k], &primes, &sk, b"").is_err());
    }
    assert_eq!(decrypt_stream_ae_v8(&ct, &primes, &sk, b"").unwrap(), "cut");
}

#[test]
fn stream_v8_error_messages() {
    let primes = kat_primes();
    let sk = [0x12u8; SK_SIZE];
    let nonce = [0x34u8; NONCE_SIZE];
    let ct = encrypt_stream_ae_v8_with_nonce("héllo ✓", &primes, &sk, &nonce, b"", 3).unwrap();
    assert_eq!(decrypt_stream_ae_v8(&ct, &primes, &sk, b"").unwrap(), "héllo ✓");

    assert_eq!(
        decrypt_stream_ae_v8(&ct[..10], &primes, &sk, b"").unwrap_err(),
        "Stream truncated: need at least 21 header bytes, got 10"
    );
    let mut bad = ct.clone();
    bad[0] = 0x01;
    assert_eq!(
        decrypt_stream_ae_v8(&bad, &primes, &sk, b"").unwrap_err(),
        "Unexpected format id 0x01; expected 0x02 (FORMAT_STREAM_AE_V8)"
    );
    let mut bad = ct.clone();
    bad[1] = 0x01;
    assert_eq!(
        decrypt_stream_ae_v8(&bad, &primes, &sk, b"").unwrap_err(),
        "Malformed v8 stream header: frame_codepoints F=16777219 out of [1, 16384]."
    );
    assert_eq!(
        decrypt_stream_ae_v8(&ct[..23], &primes, &sk, b"").unwrap_err(),
        "Stream truncated: need 4-byte chunk length prefix."
    );
    assert_eq!(
        decrypt_stream_ae_v8(&ct[..30], &primes, &sk, b"").unwrap_err(),
        "Stream truncated mid-frame."
    );
    let mut bad = ct.clone();
    bad[24] = 0xE1;
    assert_eq!(
        decrypt_stream_ae_v8(&bad, &primes, &sk, b"").unwrap_err(),
        "Malformed v8 stream frame: chunk length 481 does not match the fixed frame size 480 (= F*8*20 for F=3)."
    );
    let mut bad = ct.clone();
    bad[30] ^= 0x01;
    assert_eq!(
        decrypt_stream_ae_v8(&bad, &primes, &sk, b"").unwrap_err(),
        "Authentication failed: invalid tag on v8 stream chunk 0."
    );
    let mut bad = ct.clone();
    let last = bad.len() - 1;
    bad[last] ^= 0x01;
    assert_eq!(
        decrypt_stream_ae_v8(&bad, &primes, &sk, b"").unwrap_err(),
        "Authentication failed: invalid v8 stream sentinel tag."
    );
    let cut = &ct[..ct.len() - 10];
    assert_eq!(
        decrypt_stream_ae_v8(cut, &primes, &sk, b"").unwrap_err(),
        "Stream truncated: need sentinel body."
    );
    let mut long = ct.clone();
    long.push(0);
    long.push(0);
    assert_eq!(
        decrypt_stream_ae_v8(&long, &primes, &sk, b"").unwrap_err(),
        "Trailing bytes after sentinel: 2 extra bytes."
    );
    assert_eq!(
        encrypt_stream_ae_v8_with_nonce("x", &primes, &sk, &nonce, b"", 0).unwrap_err(),
        "frame_codepoints must be in [1, 16384], got 0"
    );
}

#[test]
fn stream_v8_trailing_bytes_refused() {
    let primes = kat_primes();
    let sk = [7u8; SK_SIZE];
    let mut ct = encrypt_stream_ae_v8("trailing", &primes, &sk, b"aad", 4).unwrap();
    assert_eq!(decrypt_stream_ae_v8(&ct, &primes, &sk, b"aad").unwrap(), "trailing");
    ct.push(0);
    assert!(decrypt_stream_ae_v8(&ct, &primes, &sk, b"aad").is_err());
}

#[test]
fn stream_v8_encryptor_frame_and_tail_lengths() {
    let primes = kat_primes();
    let sk = [9u8; SK_SIZE];
    let f: u32 = 4;
    let (mut enc, header) = StreamV8Encryptor::new(&primes, &sk, b"", f).unwrap();
    let mut frames: Vec<u8> = Vec::new();
    let text = "abcdefghij";
    for (j, c) in text.chars().enumerate() {
        match enc.push(c).unwrap() {
            Some(frame) => {
                assert_eq!((j + 1) % 4, 0);
                assert_eq!(frame.len(), 36 + 160 * f as usize);
                assert_eq!(&frame[..4], &(160 * f).to_be_bytes());
                frames.extend_from_slice(&frame);
            }
            None => assert_ne!((j + 1) % 4, 0),
        }
    }
    let tail = enc.finish().unwrap();
    assert_eq!(tail.len(), 44 + 36 + 160 * f as usize);
    let n = tail.len();
    assert_eq!(&tail[n - 44..n - 40], &[0u8; 4]);
    assert_eq!(&tail[n - 40..n - 32], &(text.len() as u64).to_be_bytes());
    let mut all = header;
    all.extend_from_slice(&frames);
    all.extend_from_slice(&tail);
    assert_eq!(decrypt_stream_ae_v8(&all, &primes, &sk, b"").unwrap(), text);
}
