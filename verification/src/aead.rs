//! The v8 block format: synthetic nonce, format subkey, capped noise runs and
//! a fixed per-bucket token count. Wire layout
//! `nonce(16) || masked_blob || tag(32)`.
use crate::bytes::{append_bytes, lemma_xor_involution, xor_bytes, xor_seq};
use crate::chars::{
    all_scalar, chars_of, codepoints, cps_of, lemma_cps_of, string_of_scalars,
};
use crate::derive::{
    auth_tag, compute_auth_tag, derive_format_subkey, derive_noise_threshold_v8, format_subkey,
    keystream_spec, lemma_keystream_len, max_keystream_len, pad_cp, synthetic_nonce,
    synthetic_nonce_spec, theta_v8, varint_keystream, NONCE_SIZE, TAG_SIZE,
};
use crate::padding::{
    block_size_spec, is_reachable_size, lemma_block_size_reachable, lemma_unpad_pad,
    pad_spec, pad_to_block, reachable, unpad_message, unpad_spec, PadProfile,
    MAX_PLAINTEXT_CODEPOINTS,
};
use crate::primes::{key_check, lemma_key_check_ok, valid_key, validate_key};
use crate::primitives::{ct_eq_bytes, is_scalar};
use crate::text::{dec, push_dec, push_str};
use crate::tokens::{
    dec8, decode_tokens_v8, emit_tokens_v8, fixed_decode, fixed_decode_tokens, fixed_encode,
    fixed_encode_tokens, lemma_dec8_scalar, lemma_decode_tokens8, lemma_fixed_decode_encode,
    lemma_fixed_encode_len, token_primes, tokens8, TokenFailure,
};
use vstd::prelude::*;

verus! {

/// Size in bytes of the v8 HMAC subkey `sk`.
pub const SK_SIZE: usize = 32;

/// Format identifier of the v8 block format (domain 0x0B).
pub const FORMAT_BLOCK_V8: u8 = 0x01;

/// Format identifier of the v8 streaming format (domain 0x0B).
pub const FORMAT_STREAM_AE_V8: u8 = 0x02;

/// A valid key has prime elements in `[2, 2^32)`, which the token arithmetic
/// needs.
pub proof fn lemma_valid_key_tokens(primes: Seq<u64>)
    requires
        valid_key(primes),
    ensures
        token_primes(primes),
{
    assert forall|i: int| 0 <= i < primes.len() implies 2 <= #[trigger] primes[i] <= 0xFFFF_FFFF by {
        assert(crate::primes::MIN_KEY_PRIME <= primes[i] <= crate::primes::MAX_KEY_PRIME);
    }
}

/// The v8 block ciphertext of `msg`, padded to `block` code points, under
/// the format subkey `sk_fmt`.
#[verifier::opaque]
pub open spec fn v8_block_ct(
    sk_fmt: Seq<u8>,
    primes: Seq<u64>,
    aad: Seq<u8>,
    msg: Seq<char>,
    block: nat,
) -> Seq<u8> {
    let nonce = synthetic_nonce_spec(sk_fmt, aad, vstd::utf8::encode_utf8(msg));
    v8_wire(
        sk_fmt,
        nonce,
        primes,
        pad_spec(cps_of(msg), sk_fmt, nonce, block),
        aad,
    )
}

/// `nonce || masked token blob || tag` for the padded code points `padded`.
pub open spec fn v8_wire(
    kb: Seq<u8>,
    nonce: Seq<u8>,
    primes: Seq<u64>,
    padded: Seq<u32>,
    aad: Seq<u8>,
) -> Seq<u8> {
    let blob = fixed_encode(tokens8(kb, nonce, theta_v8(kb, nonce), primes, padded));
    let masked = xor_seq(blob, keystream_spec(kb, nonce, blob.len()));
    nonce + masked + auth_tag(kb, aad, nonce, masked, 8)
}

pub open spec fn msg_too_long_v8(n: nat) -> Seq<char> {
    "Message too long: "@ + dec(n) + " codepoints exceeds MAX_PLAINTEXT_CODEPOINTS ("@ + dec(
        MAX_PLAINTEXT_CODEPOINTS as nat,
    ) + ")"@
}

/// v8 block encryption under an already derived format subkey.
pub open spec fn encrypt_v8_inner_spec(
    sk_fmt: Seq<u8>,
    primes: Seq<u64>,
    aad: Seq<u8>,
    msg: Seq<char>,
    profile: PadProfile,
) -> Result<Seq<u8>, Seq<char>> {
    if msg.len() > MAX_PLAINTEXT_CODEPOINTS {
        Err(msg_too_long_v8(msg.len()))
    } else {
        match block_size_spec(profile, msg.len()) {
            Err(e) => Err(e),
            Ok(b) => Ok(v8_block_ct(sk_fmt, primes, aad, msg, b)),
        }
    }
}

/// v8 block encryption: key validation, then encryption under the block
/// format subkey of `sk`.
pub open spec fn encrypt_v8_spec(
    primes: Seq<u64>,
    sk: Seq<u8>,
    aad: Seq<u8>,
    msg: Seq<char>,
    profile: PadProfile,
) -> Result<Seq<u8>, Seq<char>> {
    match key_check(primes) {
        Err(e) => Err(e),
        Ok(_) => encrypt_v8_inner_spec(
            format_subkey(sk, FORMAT_BLOCK_V8),
            primes,
            aad,
            msg,
            profile,
        ),
    }
}

pub open spec fn msg_ct_short(len: nat) -> Seq<char> {
    "Ciphertext too short: "@ + dec(len) + " bytes; header+tag require at least "@ + dec(48)
        + "."@
}

pub open spec fn msg_auth_failed() -> Seq<char> {
    "Authentication failed: invalid HMAC tag."@
}

pub open spec fn msg_v8_ceiling() -> Seq<char> {
    "Malformed v8 ciphertext: token count is not a multiple of the padding ceiling; expected exactly real_token_count * (MAX_NOISE_RUN + 1) tokens."@
}

pub open spec fn msg_v8_real_count(rc: nat) -> Seq<char> {
    "Malformed v8 ciphertext: real-token count "@ + dec(rc)
        + " is not B + 2 for any reachable padded block size B in [16, 65536]."@
}

/// The message of a v8 block decoding failure in a stream of `n` tokens
/// holding `rc` real tokens.
pub open spec fn msg_v8_failure(f: TokenFailure, n: nat, rc: nat) -> Seq<char> {
    match f {
        TokenFailure::Truncated { pos, real_idx, noise_run } => "Truncated v8 ciphertext: token stream ended at position "@
            + dec(pos as nat) + " of "@ + dec(n) + " after recovering "@ + dec(real_idx as nat)
            + " of "@ + dec(rc) + " real tokens; expected another real token (noise run length reached "@
            + dec(noise_run as nat) + " of max "@ + dec(19) + ")."@,
        TokenFailure::NotToken { pos, k } => "Malformed v8 ciphertext: token at position "@ + dec(
            pos as nat,
        ) + " is not of the form codepoint * k + addend for key element "@ + dec(k as nat) + "."@,
        TokenFailure::NotScalar { cp, pos } => "Malformed v8 ciphertext: recovered value "@ + dec(
            cp as nat,
        ) + " at position "@ + dec(pos as nat) + " is not a Unicode scalar value."@,
    }
}

/// Lock-step decoding of a v8 block token stream into the message code
/// points.
pub open spec fn decrypt_core_v8_spec(
    nonce: Seq<u8>,
    tokens: Seq<u64>,
    primes: Seq<u64>,
    kb: Seq<u8>,
) -> Result<Seq<u32>, Seq<char>> {
    let n = tokens.len();
    if n % 20 != 0 {
        Err(msg_v8_ceiling())
    } else {
        let rc = n / 20;
        if !(rc >= 2 && reachable((rc - 2) as nat)) {
            Err(msg_v8_real_count(rc))
        } else {
            match dec8(kb, nonce, theta_v8(kb, nonce), primes, tokens, rc, 0, 0, seq![]) {
                Err(f) => Err(msg_v8_failure(f, n, rc)),
                Ok(padded) => unpad_spec(padded),
            }
        }
    }
}

/// v8 block decryption of `ct` (at least 48 bytes) under a format subkey.
pub open spec fn decrypt_v8_inner_spec(
    sk_fmt: Seq<u8>,
    ct: Seq<u8>,
    primes: Seq<u64>,
    aad: Seq<u8>,
) -> Result<Seq<char>, Seq<char>> {
    let split = ct.len() - 32;
    let payload = ct.subrange(0, split);
    let nonce = payload.subrange(0, 16);
    let masked = payload.subrange(16, payload.len() as int);
    if ct.subrange(split, ct.len() as int) != auth_tag(sk_fmt, aad, nonce, masked, 8) {
        Err(msg_auth_failed())
    } else {
        let blob = xor_seq(masked, keystream_spec(sk_fmt, nonce, masked.len()));
        match fixed_decode(blob) {
            Err(e) => Err("varint decode error: "@ + e),
            Ok(tokens) => match decrypt_core_v8_spec(nonce, tokens, primes, sk_fmt) {
                Err(e) => Err(e),
                Ok(cps) => Ok(chars_of(cps)),
            },
        }
    }
}

/// v8 block decryption: key validation, length check, then decryption under
/// the block format subkey of `sk`.
pub open spec fn decrypt_v8_spec(primes: Seq<u64>, sk: Seq<u8>, aad: Seq<u8>, ct: Seq<u8>) -> Result<
    Seq<char>,
    Seq<char>,
> {
    match key_check(primes) {
        Err(e) => Err(e),
        Ok(_) => if ct.len() < 48 {
            Err(msg_ct_short(ct.len()))
        } else {
            decrypt_v8_inner_spec(format_subkey(sk, FORMAT_BLOCK_V8), ct, primes, aad)
        },
    }
}

pub open spec fn string_result(r: Result<String, String>) -> Result<Seq<char>, Seq<char>> {
    match r {
        Ok(s) => Ok(s@),
        Err(e) => Err(e@),
    }
}

pub open spec fn bytes_result(r: Result<Vec<u8>, String>) -> Result<Seq<u8>, Seq<char>> {
    match r {
        Ok(v) => Ok(v@),
        Err(e) => Err(e@),
    }
}

/// Misuse-resistant v8 encryption under the default `Bucket` profile.
pub fn encrypt_bytes_v8(message: &str, primes: &[u64], sk: &[u8; SK_SIZE], aad: &[u8]) -> (r:
    Result<Vec<u8>, String>)
    ensures
        bytes_result(r) == encrypt_v8_spec(primes@, sk@, aad@, message@, PadProfile::Bucket),
{
    encrypt_bytes_v8_with_profile(message, primes, sk, aad, PadProfile::Bucket)
}

/// v8 encryption with an explicit padding profile (never transmitted).
pub fn encrypt_bytes_v8_with_profile(
    message: &str,
    primes: &[u64],
    sk: &[u8; SK_SIZE],
    aad: &[u8],
    pad_profile: PadProfile,
) -> (r: Result<Vec<u8>, String>)
    ensures
        bytes_result(r) == encrypt_v8_spec(primes@, sk@, aad@, message@, pad_profile),
{
    match validate_key(primes) {
        Err(e) => Err(e),
        Ok(()) => encrypt_bytes_v8_core(message, primes, sk, aad, pad_profile),
    }
}

/// v8 encryption for a key that has already been validated.
pub(crate) fn encrypt_bytes_v8_core(
    message: &str,
    primes: &[u64],
    sk: &[u8; SK_SIZE],
    aad: &[u8],
    pad_profile: PadProfile,
) -> (r: Result<Vec<u8>, String>)
    requires
        valid_key(primes@),
    ensures
        bytes_result(r) == encrypt_v8_inner_spec(
            format_subkey(sk@, FORMAT_BLOCK_V8),
            primes@,
            aad@,
            message@,
            pad_profile,
        ),
{
    let mut sk_fmt = derive_format_subkey(sk, FORMAT_BLOCK_V8);
    let result = encrypt_bytes_v8_core_inner(&sk_fmt, message, primes, aad, pad_profile);
    zeroize_sk(&mut sk_fmt);
    result
}

/// Appends `nonce || masked || tag` where the tag covers `aad` with an
/// AAD length prefix of `width` bytes.
pub(crate) fn seal(kb: &[u8], nonce: &[u8], masked: &[u8], aad: &[u8], width: usize) -> (out: Vec<u8>)
    requires
        nonce@.len() == 16,
        width == 4 || width == 8,
        aad@.len() < crate::bytes::byte_pow(width as nat),
    ensures
        out@ == nonce@ + masked@ + auth_tag(kb@, aad@, nonce@, masked@, width as nat),
{
    let mut payload: Vec<u8> = Vec::new();
    append_bytes(&mut payload, nonce);
    append_bytes(&mut payload, masked);
    let tag = compute_auth_tag(kb, aad, payload.as_slice(), width);
    assert(payload@.subrange(0, 16) =~= nonce@);
    assert(payload@.subrange(16, payload@.len() as int) =~= masked@);
    append_bytes(&mut payload, &tag);
    payload
}

fn encrypt_bytes_v8_core_inner(
    sk_fmt: &[u8; 32],
    message: &str,
    primes: &[u64],
    aad: &[u8],
    pad_profile: PadProfile,
) -> (r: Result<Vec<u8>, String>)
    requires
        valid_key(primes@),
    ensures
        bytes_result(r) == encrypt_v8_inner_spec(sk_fmt@, primes@, aad@, message@, pad_profile),
{
    let cps = codepoints(message);
    if cps.len() > MAX_PLAINTEXT_CODEPOINTS {
        return Err(too_long_message(cps.len()));
    }
    let block_size = match pad_profile.block_size(cps.len()) {
        Ok(b) => b,
        Err(e) => {
            return Err(e);
        },
    };
    proof {
        lemma_block_size_reachable(pad_profile, cps@.len());
    }
    Ok(v8_block_exec(sk_fmt, message, cps.as_slice(), primes, aad, block_size))
}

fn too_long_message(n: usize) -> (s: String)
    ensures
        s@ == msg_too_long_v8(n as nat),
{
    let mut s = String::from_str("Message too long: ");
    push_dec(&mut s, n as u64);
    push_str(&mut s, " codepoints exceeds MAX_PLAINTEXT_CODEPOINTS (");
    push_dec(&mut s, MAX_PLAINTEXT_CODEPOINTS as u64);
    push_str(&mut s, ")");
    s
}

fn v8_block_exec(
    sk_fmt: &[u8; 32],
    message: &str,
    cps: &[u32],
    primes: &[u64],
    aad: &[u8],
    block_size: usize,
) -> (out: Vec<u8>)
    requires
        valid_key(primes@),
        cps@ == cps_of(message@),
        reachable(block_size as nat),
        cps@.len() < block_size,
    ensures
        out@ == v8_block_ct(sk_fmt@, primes@, aad@, message@, block_size as nat),
{
    proof {
        crate::padding::lemma_reachable_bounds(block_size as nat);
        reveal(v8_block_ct);
    }
    let nonce = synthetic_nonce(sk_fmt, aad, message.as_bytes());
    let theta = derive_noise_threshold_v8(sk_fmt, &nonce);
    let padded = pad_to_block(cps, sk_fmt, &nonce, block_size);
    v8_wire_exec(sk_fmt, &nonce, theta, primes, padded.as_slice(), aad)
}

fn v8_wire_exec(kb: &[u8], nonce: &[u8; 16], theta: u64, primes: &[u64], padded: &[u32], aad: &[u8]) -> (out: Vec<u8>)
    requires
        valid_key(primes@),
        padded@.len() <= 0x1_0002,
        theta == theta_v8(kb@, nonce@),
    ensures
        out@ == v8_wire(kb@, nonce@, primes@, padded@, aad@),
{
    proof {
        lemma_valid_key_tokens(primes@);
    }
    let cypher = emit_tokens_v8(kb, nonce, theta, primes, padded);
    let blob = fixed_encode_tokens(cypher.as_slice());
    proof {
        lemma_fixed_encode_len(cypher@);
    }
    let ks = varint_keystream(kb, nonce, blob.len());
    proof {
        lemma_keystream_len(kb@, nonce@, blob@.len());
    }
    let masked = xor_bytes(blob.as_slice(), ks.as_slice());
    let alen = aad.len();
    proof {
        crate::bytes::lemma_byte_pow_values();
    }
    seal(kb, nonce, masked.as_slice(), aad, 8)
}

/// Misuse-resistant v8 decryption, the inverse of `encrypt_bytes_v8`.
pub fn decrypt_bytes_v8(ciphertext: &[u8], primes: &[u64], sk: &[u8; SK_SIZE], aad: &[u8]) -> (r:
    Result<String, String>)
    requires
        ciphertext@.len() <= max_keystream_len(),
    ensures
        string_result(r) == decrypt_v8_spec(primes@, sk@, aad@, ciphertext@),
{
    match validate_key(primes) {
        Err(e) => Err(e),
        Ok(()) => decrypt_bytes_v8_core(ciphertext, primes, sk, aad),
    }
}

/// v8 decryption for a key that has already been validated.
pub(crate) fn decrypt_bytes_v8_core(
    ciphertext: &[u8],
    primes: &[u64],
    sk: &[u8; SK_SIZE],
    aad: &[u8],
) -> (r: Result<String, String>)
    requires
        valid_key(primes@),
        ciphertext@.len() <= max_keystream_len(),
    ensures
        string_result(r) == (if ciphertext@.len() < 48 {
            Err(msg_ct_short(ciphertext@.len()))
        } else {
            decrypt_v8_inner_spec(
                format_subkey(sk@, FORMAT_BLOCK_V8),
                ciphertext@,
                primes@,
                aad@,
            )
        }),
{
    if ciphertext.len() < NONCE_SIZE + TAG_SIZE {
        return Err(ct_short_message(ciphertext.len()));
    }
    let mut sk_fmt = derive_format_subkey(sk, FORMAT_BLOCK_V8);
    let result = decrypt_bytes_v8_core_inner(&sk_fmt, ciphertext, primes, aad);
    zeroize_sk(&mut sk_fmt);
    result
}

pub(crate) fn ct_short_message(len: usize) -> (s: String)
    ensures
        s@ == msg_ct_short(len as nat),
{
    let mut s = String::from_str("Ciphertext too short: ");
    push_dec(&mut s, len as u64);
    push_str(&mut s, " bytes; header+tag require at least ");
    push_dec(&mut s, 48);
    push_str(&mut s, ".");
    s
}

/// Verifies the tag of `ciphertext` and returns its nonce and unmasked
/// blob.
pub(crate) fn open_sealed(kb: &[u8], ciphertext: &[u8], aad: &[u8], width: usize) -> (r: Option<
    (Vec<u8>, Vec<u8>),
>)
    requires
        ciphertext@.len() >= 48,
        ciphertext@.len() <= max_keystream_len(),
        width == 4 || width == 8,
        aad@.len() < crate::bytes::byte_pow(width as nat),
    ensures
        ({
            let split = ciphertext@.len() - 32;
            let payload = ciphertext@.subrange(0, split);
            let nonce = payload.subrange(0, 16);
            let masked = payload.subrange(16, payload.len() as int);
            match r {
                None => ciphertext@.subrange(split, ciphertext@.len() as int) != auth_tag(
                    kb@,
                    aad@,
                    nonce,
                    masked,
                    width as nat,
                ),
                Some((n, blob)) => ciphertext@.subrange(split, ciphertext@.len() as int)
                    == auth_tag(kb@, aad@, nonce, masked, width as nat) && n@ == nonce && blob@
                    == xor_seq(masked, keystream_spec(kb@, nonce, masked.len())),
            }
        }),
{
    let split = ciphertext.len() - TAG_SIZE;
    let payload = &ciphertext[0..split];
    let recv_tag = &ciphertext[split..ciphertext.len()];
    let calc_tag = compute_auth_tag(kb, aad, payload, width);
    if !ct_eq_bytes(recv_tag, &calc_tag) {
        return None;
    }
    let nonce = &payload[0..NONCE_SIZE];
    let masked = &payload[NONCE_SIZE..payload.len()];
    let ks = varint_keystream(kb, nonce, masked.len());
    proof {
        lemma_keystream_len(kb@, nonce@, masked@.len());
    }
    let blob = xor_bytes(masked, ks.as_slice());
    let n = crate::bytes::bytes_to_vec(nonce);
    Some((n, blob))
}

fn decrypt_bytes_v8_core_inner(sk_fmt: &[u8; 32], ciphertext: &[u8], primes: &[u64], aad: &[u8]) -> (r:
    Result<String, String>)
    requires
        valid_key(primes@),
        48 <= ciphertext@.len() <= max_keystream_len(),
    ensures
        string_result(r) == decrypt_v8_inner_spec(sk_fmt@, ciphertext@, primes@, aad@),
{
    let alen = aad.len();
    proof {
        crate::bytes::lemma_byte_pow_values();
    }
    let (nonce, blob) = match open_sealed(sk_fmt, ciphertext, aad, 8) {
        None => {
            return Err(String::from_str("Authentication failed: invalid HMAC tag."));
        },
        Some(p) => p,
    };
    let tokens = match fixed_decode_tokens(blob.as_slice()) {
        Ok(t) => t,
        Err(e) => {
            let mut s = String::from_str("varint decode error: ");
            push_str(&mut s, e.as_str());
            return Err(s);
        },
    };
    let cps = match decrypt_core_v8(nonce.as_slice(), tokens.as_slice(), primes, sk_fmt) {
        Ok(c) => c,
        Err(e) => {
            return Err(e);
        },
    };
    Ok(string_of_scalars(cps.as_slice()))
}

fn v8_failure_message(f: TokenFailure, n: u64, rc: u64) -> (s: String)
    ensures
        s@ == msg_v8_failure(f, n as nat, rc as nat),
{
    match f {
        TokenFailure::Truncated { pos, real_idx, noise_run } => {
            let mut s = String::from_str("Truncated v8 ciphertext: token stream ended at position ");
            push_dec(&mut s, pos);
            push_str(&mut s, " of ");
            push_dec(&mut s, n);
            push_str(&mut s, " after recovering ");
            push_dec(&mut s, real_idx);
            push_str(&mut s, " of ");
            push_dec(&mut s, rc);
            push_str(
                &mut s,
                " real tokens; expected another real token (noise run length reached ",
            );
            push_dec(&mut s, noise_run);
            push_str(&mut s, " of max ");
            push_dec(&mut s, 19);
            push_str(&mut s, ").");
            s
        },
        TokenFailure::NotToken { pos, k } => {
            let mut s = String::from_str("Malformed v8 ciphertext: token at position ");
            push_dec(&mut s, pos);
            push_str(&mut s, " is not of the form codepoint * k + addend for key element ");
            push_dec(&mut s, k);
            push_str(&mut s, ".");
            s
        },
        TokenFailure::NotScalar { cp, pos } => {
            let mut s = String::from_str("Malformed v8 ciphertext: recovered value ");
            push_dec(&mut s, cp);
            push_str(&mut s, " at position ");
            push_dec(&mut s, pos);
            push_str(&mut s, " is not a Unicode scalar value.");
            s
        },
    }
}

/// Lock-step v8 block decoder: checks the token count against the fixed
/// per-bucket ceiling, decodes, and unpads. Every code point it returns is a
/// Unicode scalar value.
pub fn decrypt_core_v8(nonce: &[u8], cypher: &[u64], key: &[u64], kb: &[u8]) -> (r: Result<
    Vec<u32>,
    String,
>)
    requires
        valid_key(key@),
    ensures
        match r {
            Ok(v) => decrypt_core_v8_spec(nonce@, cypher@, key@, kb@) == Ok::<
                Seq<u32>,
                Seq<char>,
            >(v@) && all_scalar(v@),
            Err(e) => decrypt_core_v8_spec(nonce@, cypher@, key@, kb@) == Err::<
                Seq<u32>,
                Seq<char>,
            >(e@),
        },
{
    proof {
        lemma_valid_key_tokens(key@);
    }
    let n_tokens = cypher.len() as u64;
    if n_tokens % 20 != 0 {
        return Err(
            String::from_str(
                "Malformed v8 ciphertext: token count is not a multiple of the padding ceiling; expected exactly real_token_count * (MAX_NOISE_RUN + 1) tokens.",
            ),
        );
    }
    let real_count = n_tokens / 20;
    if !(real_count >= 2 && is_reachable_size(real_count - 2)) {
        let mut s = String::from_str("Malformed v8 ciphertext: real-token count ");
        push_dec(&mut s, real_count);
        push_str(&mut s, " is not B + 2 for any reachable padded block size B in [16, 65536].");
        return Err(s);
    }
    let theta = derive_noise_threshold_v8(kb, nonce);
    let padded = match decode_tokens_v8(kb, nonce, theta, key, cypher, real_count) {
        Ok(p) => p,
        Err(f) => {
            return Err(v8_failure_message(f, n_tokens, real_count));
        },
    };
    proof {
        lemma_dec8_scalar(
            kb@,
            nonce@,
            theta as nat,
            key@,
            cypher@,
            real_count as nat,
            0,
            0,
            seq![],
        );
    }
    let r = unpad_message(padded.as_slice());
    proof {
        if r is Ok {
            let v = r->Ok_0;
            assert forall|i: int| 0 <= i < v@.len() implies is_scalar(#[trigger] v@[i] as nat) by {
                assert(v@[i] == padded@[i + 2]);
            }
        }
    }
    r
}

/// Decryption gives back every message that encryption accepted, under the
/// same primes, `sk` and AAD.
#[verifier::spinoff_prover]
#[verifier::rlimit(40)]
pub proof fn lemma_v8_roundtrip(
    primes: Seq<u64>,
    sk: Seq<u8>,
    aad: Seq<u8>,
    msg: Seq<char>,
    profile: PadProfile,
)
    requires
        encrypt_v8_spec(primes, sk, aad, msg, profile) is Ok,
    ensures
        decrypt_v8_spec(primes, sk, aad, encrypt_v8_spec(primes, sk, aad, msg, profile)->Ok_0)
            == Ok::<Seq<char>, Seq<char>>(msg),
{
    lemma_key_check_ok(primes);
    lemma_valid_key_tokens(primes);
    let kb = format_subkey(sk, FORMAT_BLOCK_V8);
    let b = block_size_spec(profile, msg.len())->Ok_0;
    lemma_block_size_reachable(profile, msg.len());
    crate::padding::lemma_reachable_bounds(b);
    reveal(v8_block_ct);
    let nonce = synthetic_nonce_spec(kb, aad, vstd::utf8::encode_utf8(msg));
    lemma_cps_of(msg);
    let cps = cps_of(msg);
    let padded = pad_spec(cps, kb, nonce, b);
    crate::padding::lemma_pad_spec_shape(cps, kb, nonce, b);
    let theta = theta_v8(kb, nonce);
    let toks = tokens8(kb, nonce, theta, primes, padded);
    crate::tokens::lemma_tokens8_len(kb, nonce, theta, primes, padded);
    let blob = fixed_encode(toks);
    lemma_fixed_encode_len(toks);
    let ks = keystream_spec(kb, nonce, blob.len());
    lemma_keystream_len(kb, nonce, blob.len());
    let masked = xor_seq(blob, ks);
    let tag = auth_tag(kb, aad, nonce, masked, 8);
    let ct = nonce + masked + tag;
    assert(ct == encrypt_v8_spec(primes, sk, aad, msg, profile)->Ok_0);
    assert(nonce.len() == 16);
    assert(tag.len() == 32);
    let split = ct.len() - 32;
    let payload = ct.subrange(0, split);
    assert(payload =~= nonce + masked);
    assert(payload.subrange(0, 16) =~= nonce);
    assert(payload.subrange(16, payload.len() as int) =~= masked);
    assert(ct.subrange(split, ct.len() as int) =~= tag);
    lemma_xor_involution(blob, ks);
    assert(xor_seq(masked, keystream_spec(kb, nonce, masked.len())) == blob);
    lemma_fixed_decode_encode(toks);
    lemma_decode_tokens8(kb, nonce, theta, primes, padded);
    assert(toks.len() / 20 == padded.len());
    assert(padded.len() - 2 == b);
    lemma_unpad_pad(cps, kb, nonce, b);
}

/// The length of a v8 block ciphertext depends on the padded block size
/// alone: nonce, `20 * (B + 2)` eight-byte tokens, tag. It does not depend
/// on the key, the AAD or the message's content; under `Frame(F)` every
/// accepted message gives the same length.
#[verifier::spinoff_prover]
pub proof fn lemma_v8_len(
    primes: Seq<u64>,
    sk: Seq<u8>,
    aad: Seq<u8>,
    msg: Seq<char>,
    profile: PadProfile,
)
    requires
        encrypt_v8_spec(primes, sk, aad, msg, profile) is Ok,
    ensures
        block_size_spec(profile, msg.len()) is Ok,
        encrypt_v8_spec(primes, sk, aad, msg, profile)->Ok_0.len() == 48 + 160 * (block_size_spec(
            profile,
            msg.len(),
        )->Ok_0 + 2),
{
    lemma_key_check_ok(primes);
    let kb = format_subkey(sk, FORMAT_BLOCK_V8);
    let b = block_size_spec(profile, msg.len())->Ok_0;
    lemma_block_size_reachable(profile, msg.len());
    crate::padding::lemma_reachable_bounds(b);
    reveal(v8_block_ct);
    let nonce = synthetic_nonce_spec(kb, aad, vstd::utf8::encode_utf8(msg));
    lemma_cps_of(msg);
    let cps = cps_of(msg);
    let padded = pad_spec(cps, kb, nonce, b);
    crate::padding::lemma_pad_spec_shape(cps, kb, nonce, b);
    let theta = theta_v8(kb, nonce);
    let toks = tokens8(kb, nonce, theta, primes, padded);
    crate::tokens::lemma_tokens8_len(kb, nonce, theta, primes, padded);
    let blob = fixed_encode(toks);
    lemma_fixed_encode_len(toks);
    lemma_keystream_len(kb, nonce, blob.len());
    let masked = xor_seq(blob, keystream_spec(kb, nonce, blob.len()));
    assert(nonce.len() == 16);
    assert(auth_tag(kb, aad, nonce, masked, 8).len() == 32);
}

/// Overwrites a v8 subkey with zeros.
pub fn zeroize_sk(sk: &mut [u8; SK_SIZE])
    ensures
        forall|i: int| 0 <= i < SK_SIZE ==> #[trigger] final(sk)@[i] == 0,
{
    let mut i: usize = 0;
    while i < SK_SIZE
        invariant
            i <= SK_SIZE,
            forall|j: int| 0 <= j < i ==> #[trigger] sk@[j] == 0,
        decreases SK_SIZE - i,
    {
        sk[i] = 0;
        i = i + 1;
    }
}

/// Overwrites every key element with zero.
pub fn zeroize_key(key: &mut Vec<u64>)
    ensures
        final(key)@.len() == old(key)@.len(),
        forall|i: int| 0 <= i < final(key)@.len() ==> #[trigger] final(key)@[i] == 0,
{
    let mut i: usize = 0;
    while i < key.len()
        invariant
            i <= key@.len(),
            key@.len() == old(key)@.len(),
            forall|j: int| 0 <= j < i ==> #[trigger] key@[j] == 0,
        decreases key@.len() - i,
    {
        key.set(i, 0);
        i = i + 1;
    }
}

} // verus!
