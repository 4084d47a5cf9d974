//! The legacy v7 format, kept to decrypt archived traffic: a random nonce,
//! the prime tuple serialised as the HMAC key, uncapped noise runs decided by
//! the binary64 threshold of `rounding`, and a 4-byte AAD length prefix.
use crate::aead::{bytes_result, ct_short_message, msg_auth_failed, msg_ct_short, open_sealed, seal, string_result};
use crate::base64_text::{base64_decode, base64_encode, base64_std_decode, base64_std_encode, lemma_base64_encode};
use crate::bytes::{byte_pow, lemma_byte_pow_values, lemma_xor_involution, xor_bytes, xor_seq};
use crate::chars::{all_scalar, chars_of, codepoints, cps_of, lemma_cps_of, string_of_scalars};
use crate::derive::{
    addend, auth_tag, derive_addend, key_bytes, key_bytes_spec, keystream_spec,
    lemma_keystream_len, max_keystream_len, noise_token_at, real_token, real_token_at,
    varint_keystream,
};
use crate::padding::{
    bucket_exp, lemma_pad_spec_shape, lemma_unpad_pad, pad_message, pad_spec, unpad_message,
    unpad_spec, MAX_PLAINTEXT_CODEPOINTS,
};
use crate::primes::{key_check, lemma_key_check_ok, valid_key, validate_key};
use crate::primitives::{is_scalar, random_16};
use crate::rounding::{derive_noise_p, is_noise_pos, is_noise_v7, noise_p_v7};
use crate::text::{dec, push_dec, push_str};
use crate::tokens::{
    fixed_decode, fixed_decode_tokens, fixed_encode, fixed_encode_tokens, key_at,
    lemma_fixed_decode_encode, lemma_fixed_encode_len, noise_tokens, token_primes, TokenFailure,
};
use vstd::arithmetic::power2::pow2;
use vstd::prelude::*;

verus! {

/// Bound on v7 token positions: a stream of this many 8-byte tokens is the
/// longest whose keystream block counter fits a `u32` (positions also stay
/// below `2^40`, the range of their five-byte encoding). The v7 emitter
/// gives up rather than leave it.
pub const POS_LIMIT: u64 = 0x3_FFFF_FFFC;

/// Noise run from `p`, counted from offset `j`: the first offset `>= j` that
/// is not a noise position (or that reaches `POS_LIMIT`).
pub open spec fn run7(kb: Seq<u8>, nonce: Seq<u8>, thr: nat, p: nat, j: nat) -> nat
    decreases POS_LIMIT - (p + j),
{
    if p + j >= POS_LIMIT || !is_noise_v7(kb, nonce, p + j, thr) {
        j
    } else {
        run7(kb, nonce, thr, p, j + 1)
    }
}

/// Tokens emitted for the first `i` code points, the next position, and
/// whether every real token found a position below `POS_LIMIT`.
pub open spec fn emit7(
    kb: Seq<u8>,
    nonce: Seq<u8>,
    thr: nat,
    primes: Seq<u64>,
    cps: Seq<u32>,
    i: nat,
) -> (Seq<u64>, nat, bool)
    decreases i,
{
    if i == 0 {
        (Seq::empty(), 0, true)
    } else {
        let prev = emit7(kb, nonce, thr, primes, cps, (i - 1) as nat);
        if !prev.2 {
            prev
        } else {
            let p = prev.1;
            let r = run7(kb, nonce, thr, p, 0);
            if p + r >= POS_LIMIT {
                (prev.0, p + r, false)
            } else {
                let k = key_at(primes, (i - 1) as nat);
                (
                    prev.0 + noise_tokens(kb, nonce, p, r, k) + seq![
                        real_token(kb, nonce, cps[i - 1] as nat, (i - 1) as nat, k) as u64,
                    ],
                    p + r + 1,
                    true,
                )
            }
        }
    }
}

/// The v7 decoder from position `p`, having recovered `i` real tokens into
/// `acc`: every position is classified on its own.
pub open spec fn dec7(
    kb: Seq<u8>,
    nonce: Seq<u8>,
    thr: nat,
    primes: Seq<u64>,
    toks: Seq<u64>,
    p: nat,
    i: nat,
    acc: Seq<u32>,
) -> Result<Seq<u32>, TokenFailure>
    decreases toks.len() - p,
{
    if p >= toks.len() {
        Ok(acc)
    } else if is_noise_v7(kb, nonce, p, thr) {
        dec7(kb, nonce, thr, primes, toks, p + 1, i, acc)
    } else {
        let k = key_at(primes, i);
        let a = addend(kb, nonce, i, k);
        let t = toks[p as int] as nat;
        if t < a || (t - a) % (k as int) != 0 {
            Err(TokenFailure::NotToken { pos: p as u64, k: k as u64 })
        } else {
            let cp = ((t - a) / (k as int)) as nat;
            if !is_scalar(cp) {
                Err(TokenFailure::NotScalar { cp: cp as u64, pos: p as u64 })
            } else {
                dec7(kb, nonce, thr, primes, toks, p + 1, i + 1, acc.push(cp as u32))
            }
        }
    }
}

pub open spec fn msg_v7_failure(f: TokenFailure) -> Seq<char> {
    match f {
        TokenFailure::NotToken { pos, k } => "Malformed v7 ciphertext: token at position "@ + dec(
            pos as nat,
        ) + " is not of the form codepoint * k + addend for key element "@ + dec(k as nat) + "."@,
        TokenFailure::NotScalar { cp, pos } => "Malformed v7 ciphertext: recovered value "@ + dec(
            cp as nat,
        ) + " at position "@ + dec(pos as nat) + " is not a Unicode scalar value."@,
        TokenFailure::Truncated { .. } => "Malformed v7 ciphertext."@,
    }
}

/// v7 decoding of a token stream into the message code points.
pub open spec fn decrypt_core_spec(nonce: Seq<u8>, cypher: Seq<u64>, key: Seq<u64>, kb: Seq<u8>) -> Result<
    Seq<u32>,
    Seq<char>,
> {
    match dec7(kb, nonce, noise_p_v7(kb, nonce), key, cypher, 0, 0, seq![]) {
        Err(f) => Err(msg_v7_failure(f)),
        Ok(padded) => unpad_spec(padded),
    }
}

/// The v7 token stream of `cps` under `nonce`, if the emitter finishes.
pub open spec fn v7_tokens(kb: Seq<u8>, nonce: Seq<u8>, key: Seq<u64>, cps: Seq<u32>) -> Option<
    Seq<u64>,
> {
    let padded = pad_spec(cps, kb, nonce, pow2(bucket_exp(cps.len())));
    let e = emit7(kb, nonce, noise_p_v7(kb, nonce), key, padded, padded.len());
    if e.2 {
        Some(e.0)
    } else {
        None
    }
}

/// The v7 ciphertext `nonce || masked || tag` of `cps`, if the emitter
/// finishes.
pub open spec fn v7_wire(kb: Seq<u8>, nonce: Seq<u8>, key: Seq<u64>, aad: Seq<u8>, cps: Seq<u32>) -> Option<
    Seq<u8>,
> {
    match v7_tokens(kb, nonce, key, cps) {
        None => None,
        Some(toks) => {
            let blob = fixed_encode(toks);
            let masked = xor_seq(blob, keystream_spec(kb, nonce, blob.len()));
            Some(nonce + masked + auth_tag(kb, aad, nonce, masked, 4))
        },
    }
}

/// v7 decryption of `ct` (at least 48 bytes) to code points.
pub open spec fn decrypt_v7_cps(key: Seq<u64>, aad: Seq<u8>, ct: Seq<u8>) -> Result<
    Seq<u32>,
    Seq<char>,
> {
    let kb = key_bytes_spec(key);
    let split = ct.len() - 32;
    let payload = ct.subrange(0, split);
    let nonce = payload.subrange(0, 16);
    let masked = payload.subrange(16, payload.len() as int);
    if ct.subrange(split, ct.len() as int) != auth_tag(kb, aad, nonce, masked, 4) {
        Err(msg_auth_failed())
    } else {
        match fixed_decode(xor_seq(masked, keystream_spec(kb, nonce, masked.len()))) {
            Err(e) => Err("varint decode error: "@ + e),
            Ok(tokens) => decrypt_core_spec(nonce, tokens, key, kb),
        }
    }
}

/// What `decrypt_bytes` answers.
pub open spec fn decrypt_bytes_spec(key: Seq<u64>, aad: Seq<u8>, ct: Seq<u8>) -> Result<
    Seq<char>,
    Seq<char>,
> {
    match key_check(key) {
        Err(e) => Err(e),
        Ok(_) => if ct.len() < 48 {
            Err(msg_ct_short(ct.len()))
        } else {
            match decrypt_v7_cps(key, aad, ct) {
                Err(e) => Err(e),
                Ok(cps) => Ok(chars_of(cps)),
            }
        },
    }
}

pub open spec fn msg_raw_range(c: nat, i: nat) -> Seq<char> {
    "Malformed v7 raw ciphertext: recovered codepoint "@ + dec(c) + " at position "@ + dec(i)
        + " is out of byte range [0, 255]. This usually means the ciphertext was produced by `encrypt_bytes` (codepoint-oriented) rather than `encrypt_raw` (byte-oriented); the two use incompatible message encodings (CVF-14)."@
}

/// Index of the first code point above 255 at or after `i`, if any.
pub open spec fn first_non_byte(cps: Seq<u32>, i: nat) -> Option<nat>
    decreases cps.len() - i,
{
    if i >= cps.len() {
        None
    } else if cps[i as int] > 0xFF {
        Some(i)
    } else {
        first_non_byte(cps, i + 1)
    }
}

/// The bytes of code points that all fit a byte.
pub open spec fn bytes_of(cps: Seq<u32>) -> Seq<u8> {
    Seq::new(cps.len(), |i: int| cps[i] as u8)
}

/// The code points of bytes.
pub open spec fn cps_of_bytes(data: Seq<u8>) -> Seq<u32> {
    Seq::new(data.len(), |i: int| data[i] as u32)
}

/// What `decrypt_raw` answers.
pub open spec fn decrypt_raw_spec(key: Seq<u64>, aad: Seq<u8>, ct: Seq<u8>) -> Result<
    Seq<u8>,
    Seq<char>,
> {
    match key_check(key) {
        Err(e) => Err(e),
        Ok(_) => if ct.len() < 48 {
            Err(msg_ct_short(ct.len()))
        } else {
            match decrypt_v7_cps(key, aad, ct) {
                Err(e) => Err(e),
                Ok(cps) => match first_non_byte(cps, 0) {
                    Some(i) => Err(msg_raw_range(cps[i as int] as nat, i)),
                    None => Ok(bytes_of(cps)),
                },
            }
        },
    }
}

pub open spec fn msg_v7_exhausted() -> Seq<char> {
    "v7 token emission left the 5-byte position range."@
}

pub open spec fn msg_v7_too_long() -> Seq<char> {
    "message exceeds MAX_PLAINTEXT_CODEPOINTS ("@ + dec(MAX_PLAINTEXT_CODEPOINTS as nat) + ")"@
}

pub open spec fn msg_raw_too_long() -> Seq<char> {
    "data exceeds MAX_PLAINTEXT_CODEPOINTS ("@ + dec(MAX_PLAINTEXT_CODEPOINTS as nat) + ") bytes"@
}

// ---------------------------------------------------------------------------
// emission and decoding
// ---------------------------------------------------------------------------

proof fn lemma_run7_noise(kb: Seq<u8>, nonce: Seq<u8>, thr: nat, p: nat, j: nat, t: nat)
    requires
        j <= t < run7(kb, nonce, thr, p, j),
    ensures
        is_noise_v7(kb, nonce, p + t, thr),
        p + t < POS_LIMIT,
    decreases POS_LIMIT - (p + j),
{
    if p + j < POS_LIMIT && is_noise_v7(kb, nonce, p + j, thr) && t > j {
        lemma_run7_noise(kb, nonce, thr, p, j + 1, t);
    }
}

proof fn lemma_run7_end(kb: Seq<u8>, nonce: Seq<u8>, thr: nat, p: nat, j: nat)
    ensures
        run7(kb, nonce, thr, p, j) >= j,
        p + run7(kb, nonce, thr, p, j) < POS_LIMIT ==> !is_noise_v7(
            kb,
            nonce,
            p + run7(kb, nonce, thr, p, j),
            thr,
        ),
    decreases POS_LIMIT - (p + j),
{
    if p + j < POS_LIMIT && is_noise_v7(kb, nonce, p + j, thr) {
        lemma_run7_end(kb, nonce, thr, p, j + 1);
    }
}

proof fn lemma_emit7_shape(
    kb: Seq<u8>,
    nonce: Seq<u8>,
    thr: nat,
    primes: Seq<u64>,
    cps: Seq<u32>,
    i: nat,
)
    ensures
        emit7(kb, nonce, thr, primes, cps, i).2 ==> emit7(kb, nonce, thr, primes, cps, i).0.len()
            == emit7(kb, nonce, thr, primes, cps, i).1,
        emit7(kb, nonce, thr, primes, cps, i).2 ==> emit7(kb, nonce, thr, primes, cps, i).1
            <= POS_LIMIT,
        emit7(kb, nonce, thr, primes, cps, i).2 ==> forall|j: nat|
            j < i ==> #[trigger] emit7(kb, nonce, thr, primes, cps, j).2,
    decreases i,
{
    if i > 0 {
        lemma_emit7_shape(kb, nonce, thr, primes, cps, (i - 1) as nat);
        let prev = emit7(kb, nonce, thr, primes, cps, (i - 1) as nat);
        if prev.2 {
            lemma_run7_end(kb, nonce, thr, prev.1, 0);
        }
    }
}

/// v7 emission: every noise run runs until the oracle says "real". Gives
/// `None` if a run would leave the position range.
pub fn emit_tokens_v7(kb: &[u8], nonce: &[u8], noise_p: u128, key: &[u64], padded: &[u32]) -> (r:
    Option<Vec<u64>>)
    requires
        token_primes(key@),
    ensures
        ({
            let e = emit7(kb@, nonce@, noise_p as nat, key@, padded@, padded@.len());
            match r {
                Some(v) => e.2 && v@ == e.0,
                None => !e.2,
            }
        }),
{
    let kk = key.len() as u64;
    let mut cypher: Vec<u64> = Vec::new();
    let mut real_idx: usize = 0;
    let mut ct_pos: u64 = 0;
    let n = padded.len();
    while real_idx < n
        invariant
            token_primes(key@),
            kk == key@.len(),
            n == padded@.len(),
            real_idx <= n,
            emit7(kb@, nonce@, noise_p as nat, key@, padded@, real_idx as nat) == (
                cypher@,
                ct_pos as nat,
                true,
            ),
            ct_pos <= POS_LIMIT,
        decreases n - real_idx,
    {
        let ghost p = ct_pos as nat;
        let ghost before = cypher@;
        let c = padded[real_idx];
        let k = key[((real_idx as u64) % kk) as usize];
        let mut noise_run: u64 = 0;
        while ct_pos < POS_LIMIT && is_noise_pos(kb, nonce, ct_pos, noise_p)
            invariant
                2 <= k <= 0xFFFF_FFFF,
                ct_pos == p + noise_run,
                ct_pos <= POS_LIMIT,
                cypher@ == before + noise_tokens(kb@, nonce@, p, noise_run as nat, k as nat),
                run7(kb@, nonce@, noise_p as nat, p, 0) == run7(
                    kb@,
                    nonce@,
                    noise_p as nat,
                    p,
                    noise_run as nat,
                ),
            decreases POS_LIMIT - ct_pos,
        {
            let t = noise_token_at(kb, nonce, ct_pos, k);
            cypher.push(t);
            proof {
                assert(noise_tokens(kb@, nonce@, p, (noise_run + 1) as nat, k as nat) =~= noise_tokens(
                    kb@,
                    nonce@,
                    p,
                    noise_run as nat,
                    k as nat,
                ).push(t));
            }
            ct_pos = ct_pos + 1;
            noise_run = noise_run + 1;
        }
        if ct_pos >= POS_LIMIT {
            proof {
                assert(run7(kb@, nonce@, noise_p as nat, p, noise_run as nat) == noise_run);
                lemma_emit7_none_sticks(kb@, nonce@, noise_p as nat, key@, padded@, (real_idx + 1) as nat, n as nat);
            }
            return None;
        }
        proof {
            assert(run7(kb@, nonce@, noise_p as nat, p, noise_run as nat) == noise_run);
        }
        let t = real_token_at(kb, nonce, c, real_idx as u64, k);
        cypher.push(t);
        ct_pos = ct_pos + 1;
        real_idx = real_idx + 1;
        proof {
            let e = emit7(kb@, nonce@, noise_p as nat, key@, padded@, real_idx as nat);
            assert(cypher@ =~= e.0);
        }
    }
    Some(cypher)
}

proof fn lemma_emit7_none_sticks(
    kb: Seq<u8>,
    nonce: Seq<u8>,
    thr: nat,
    primes: Seq<u64>,
    cps: Seq<u32>,
    i: nat,
    l: nat,
)
    requires
        !emit7(kb, nonce, thr, primes, cps, i).2,
        i <= l,
    ensures
        !emit7(kb, nonce, thr, primes, cps, l).2,
    decreases l - i,
{
    if i < l {
        lemma_emit7_none_sticks(kb, nonce, thr, primes, cps, i + 1, l);
    }
}

/// v7 decoding of a token stream (every position classified on its own).
pub fn decode_tokens_v7(kb: &[u8], nonce: &[u8], noise_p: u128, key: &[u64], tokens: &[u64]) -> (r:
    Result<Vec<u32>, TokenFailure>)
    requires
        token_primes(key@),
    ensures
        match r {
            Ok(v) => dec7(kb@, nonce@, noise_p as nat, key@, tokens@, 0, 0, seq![]) == Ok::<
                Seq<u32>,
                TokenFailure,
            >(v@),
            Err(f) => dec7(kb@, nonce@, noise_p as nat, key@, tokens@, 0, 0, seq![]) == Err::<
                Seq<u32>,
                TokenFailure,
            >(f),
        },
{
    let kk = key.len() as u64;
    let n = tokens.len();
    let mut out: Vec<u32> = Vec::new();
    let mut real_idx: u64 = 0;
    let mut ct_pos: usize = 0;
    while ct_pos < n
        invariant
            token_primes(key@),
            kk == key@.len(),
            n == tokens@.len(),
            ct_pos <= n,
            real_idx <= ct_pos,
            dec7(kb@, nonce@, noise_p as nat, key@, tokens@, ct_pos as nat, real_idx as nat, out@)
                == dec7(kb@, nonce@, noise_p as nat, key@, tokens@, 0, 0, seq![]),
        decreases n - ct_pos,
    {
        if !is_noise_pos(kb, nonce, ct_pos as u64, noise_p) {
            let k = key[(real_idx % kk) as usize];
            let a = derive_addend(kb, nonce, real_idx, k);
            let token = tokens[ct_pos];
            if token < a || (token - a) % k != 0 {
                return Err(TokenFailure::NotToken { pos: ct_pos as u64, k: k });
            }
            let cp = (token - a) / k;
            if cp > 0x10FFFF || (0xD800 <= cp && cp <= 0xDFFF) {
                return Err(TokenFailure::NotScalar { cp: cp, pos: ct_pos as u64 });
            }
            out.push(cp as u32);
            real_idx = real_idx + 1;
        }
        ct_pos = ct_pos + 1;
    }
    Ok(out)
}

proof fn lemma_dec7_scalar(
    kb: Seq<u8>,
    nonce: Seq<u8>,
    thr: nat,
    primes: Seq<u64>,
    toks: Seq<u64>,
    p: nat,
    i: nat,
    acc: Seq<u32>,
)
    requires
        all_scalar(acc),
        dec7(kb, nonce, thr, primes, toks, p, i, acc) is Ok,
    ensures
        all_scalar(dec7(kb, nonce, thr, primes, toks, p, i, acc)->Ok_0),
    decreases toks.len() - p,
{
    if p < toks.len() {
        if is_noise_v7(kb, nonce, p, thr) {
            lemma_dec7_scalar(kb, nonce, thr, primes, toks, p + 1, i, acc);
        } else {
            let k = key_at(primes, i);
            let a = addend(kb, nonce, i, k);
            let t = toks[p as int] as nat;
            let cp = ((t - a) / (k as int)) as nat;
            let acc2 = acc.push(cp as u32);
            assert(all_scalar(acc2)) by {
                assert forall|j: int| 0 <= j < acc2.len() implies is_scalar(
                    #[trigger] acc2[j] as nat,
                ) by {
                    if j < acc.len() {
                        assert(acc2[j] == acc[j]);
                    }
                }
            }
            lemma_dec7_scalar(kb, nonce, thr, primes, toks, p + 1, i + 1, acc2);
        }
    }
}

fn v7_failure_message(f: TokenFailure) -> (s: String)
    ensures
        s@ == msg_v7_failure(f),
{
    match f {
        TokenFailure::NotToken { pos, k } => {
            let mut s = String::from_str("Malformed v7 ciphertext: token at position ");
            push_dec(&mut s, pos);
            push_str(&mut s, " is not of the form codepoint * k + addend for key element ");
            push_dec(&mut s, k);
            push_str(&mut s, ".");
            s
        },
        TokenFailure::NotScalar { cp, pos } => {
            let mut s = String::from_str("Malformed v7 ciphertext: recovered value ");
            push_dec(&mut s, cp);
            push_str(&mut s, " at position ");
            push_dec(&mut s, pos);
            push_str(&mut s, " is not a Unicode scalar value.");
            s
        },
        TokenFailure::Truncated { .. } => String::from_str("Malformed v7 ciphertext."),
    }
}

/// v7 decoding with an explicit derivation key `kb`; every code point it
/// returns is a Unicode scalar value.
pub fn decrypt_core(nonce: &[u8], cypher: &[u64], key: &[u64], kb: &[u8]) -> (r: Result<
    Vec<u32>,
    String,
>)
    requires
        valid_key(key@),
    ensures
        match r {
            Ok(v) => decrypt_core_spec(nonce@, cypher@, key@, kb@) == Ok::<Seq<u32>, Seq<char>>(
                v@,
            ) && all_scalar(v@),
            Err(e) => decrypt_core_spec(nonce@, cypher@, key@, kb@) == Err::<
                Seq<u32>,
                Seq<char>,
            >(e@),
        },
{
    proof {
        crate::aead::lemma_valid_key_tokens(key@);
    }
    let noise_p = derive_noise_p(kb, nonce);
    let padded = match decode_tokens_v7(kb, nonce, noise_p, key, cypher) {
        Ok(p) => p,
        Err(f) => {
            return Err(v7_failure_message(f));
        },
    };
    proof {
        lemma_dec7_scalar(kb@, nonce@, noise_p as nat, key@, cypher@, 0, 0, seq![]);
    }
    let r = unpad_message(padded.as_slice());
    proof {
        if r is Ok {
            let v = r->Ok_0;
            assert forall|i: int| 0 <= i < v@.len() implies is_scalar(#[trigger] v@[i] as nat) by {
                assert(v@[i] == padded@[i + 2]);
            }
        }
    }
    r
}

/// v7 low-level decryption of a token stream.
pub fn decrypt(nonce: &[u8], cypher: &[u64], key: &[u64]) -> (r: Result<Vec<u32>, String>)
    ensures
        match r {
            Ok(v) => key_check(key@) is Ok && decrypt_core_spec(
                nonce@,
                cypher@,
                key@,
                key_bytes_spec(key@),
            ) == Ok::<Seq<u32>, Seq<char>>(v@) && all_scalar(v@),
            Err(e) => match key_check(key@) {
                Err(m) => e@ == m,
                Ok(_) => decrypt_core_spec(nonce@, cypher@, key@, key_bytes_spec(key@)) == Err::<
                    Seq<u32>,
                    Seq<char>,
                >(e@),
            },
        },
{
    match validate_key(key) {
        Err(e) => {
            return Err(e);
        },
        Ok(()) => {},
    }
    let kb = key_bytes(key);
    decrypt_core(nonce, cypher, key, kb.as_slice())
}

// ---------------------------------------------------------------------------
// encryption
// ---------------------------------------------------------------------------

/// Draws a fresh nonce from the operating system's random source.
pub fn generate_nonce() -> (n: [u8; 16]) {
    random_16()
}

/// The padded tokens of `cps` under `nonce`, or `None` if emission left the
/// position range.
fn v7_token_stream(cps: &[u32], key: &[u64], kb: &[u8], nonce: &[u8]) -> (r: Option<Vec<u64>>)
    requires
        valid_key(key@),
        cps@.len() <= MAX_PLAINTEXT_CODEPOINTS,
    ensures
        match r {
            Some(v) => v7_tokens(kb@, nonce@, key@, cps@) == Some(v@),
            None => v7_tokens(kb@, nonce@, key@, cps@) is None,
        },
{
    proof {
        crate::aead::lemma_valid_key_tokens(key@);
    }
    let noise_p = derive_noise_p(kb, nonce);
    let padded = pad_message(cps, kb, nonce);
    emit_tokens_v7(kb, nonce, noise_p, key, padded.as_slice())
}

/// Masks and seals a v7 token stream.
fn v7_seal(tokens: &[u64], kb: &[u8], nonce: &[u8], aad: &[u8]) -> (out: Vec<u8>)
    requires
        nonce@.len() == 16,
        aad@.len() < 0x1_0000_0000,
        tokens@.len() * 8 <= max_keystream_len(),
    ensures
        ({
            let blob = fixed_encode(tokens@);
            let masked = xor_seq(blob, keystream_spec(kb@, nonce@, blob.len()));
            out@ == nonce@ + masked + auth_tag(kb@, aad@, nonce@, masked, 4)
        }),
{
    let blob = fixed_encode_tokens(tokens);
    proof {
        lemma_fixed_encode_len(tokens@);
    }
    let ks = varint_keystream(kb, nonce, blob.len());
    proof {
        lemma_keystream_len(kb@, nonce@, blob@.len());
        lemma_byte_pow_values();
    }
    let masked = xor_bytes(blob.as_slice(), ks.as_slice());
    seal(kb, nonce, masked.as_slice(), aad, 4)
}

proof fn lemma_v7_tokens_len(kb: Seq<u8>, nonce: Seq<u8>, key: Seq<u64>, cps: Seq<u32>)
    requires
        v7_tokens(kb, nonce, key, cps) is Some,
    ensures
        v7_tokens(kb, nonce, key, cps)->Some_0.len() <= POS_LIMIT,
{
    let padded = pad_spec(cps, kb, nonce, pow2(bucket_exp(cps.len())));
    lemma_emit7_shape(kb, nonce, noise_p_v7(kb, nonce), key, padded, padded.len());
}

/// The v7 ciphertext of `cps` under `nonce`; `None` when emission left the
/// position range.
fn v7_encrypt_cps(cps: &[u32], key: &[u64], kb: &[u8], nonce: &[u8; 16], aad: &[u8]) -> (r: Option<
    Vec<u8>,
>)
    requires
        valid_key(key@),
        cps@.len() <= MAX_PLAINTEXT_CODEPOINTS,
        aad@.len() < 0x1_0000_0000,
    ensures
        match r {
            Some(v) => v7_wire(kb@, nonce@, key@, aad@, cps@) == Some(v@),
            None => v7_wire(kb@, nonce@, key@, aad@, cps@) is None,
        },
{
    match v7_token_stream(cps, key, kb, nonce) {
        None => None,
        Some(tokens) => {
            proof {
                lemma_v7_tokens_len(kb@, nonce@, key@, cps@);
            }
            Some(v7_seal(tokens.as_slice(), kb, nonce, aad))
        },
    }
}

fn exhausted_message() -> (s: String)
    ensures
        s@ == msg_v7_exhausted(),
{
    String::from_str("v7 token emission left the 5-byte position range.")
}

/// Deterministic v7 encryption with a caller-chosen nonce, for known-answer
/// tests and the power-on self-test. A reused nonce is catastrophic.
/// Returns an empty vector if emission leaves the position range.
pub fn encrypt_bytes_with_nonce(message: &str, key: &[u64], nonce: [u8; 16], aad: &[u8]) -> (out: Vec<
    u8,
>)
    requires
        valid_key(key@),
        message@.len() <= MAX_PLAINTEXT_CODEPOINTS,
        aad@.len() < 0x1_0000_0000,
    ensures
        match v7_wire(key_bytes_spec(key@), nonce@, key@, aad@, cps_of(message@)) {
            Some(ct) => out@ == ct,
            None => out@.len() == 0,
        },
{
    let kb = key_bytes(key);
    let cps = codepoints(message);
    match v7_encrypt_cps(cps.as_slice(), key, kb.as_slice(), &nonce, aad) {
        Some(ct) => ct,
        None => Vec::new(),
    }
}

/// Some 16-byte nonce makes the v7 emitter leave the position range for
/// `cps` under `key` and `aad`.
pub open spec fn v7_exhaustible(key: Seq<u64>, aad: Seq<u8>, cps: Seq<u32>) -> bool {
    exists|nonce: Seq<u8>|
        nonce.len() == 16 && (#[trigger] v7_wire(key_bytes_spec(key), nonce, key, aad, cps)) is None
}

/// What v7 text encryption may give: the key error, the length error, or a
/// ciphertext made under the random nonce it starts with (or, only where the
/// drawn nonce makes the emitter leave the position range, that error).
pub open spec fn v7_encrypt_outcome(
    key: Seq<u64>,
    aad: Seq<u8>,
    message: Seq<char>,
    r: Result<Seq<u8>, Seq<char>>,
) -> bool {
    match key_check(key) {
        Err(e) => r == Err::<Seq<u8>, Seq<char>>(e),
        Ok(_) => if message.len() > MAX_PLAINTEXT_CODEPOINTS {
            r == Err::<Seq<u8>, Seq<char>>(msg_v7_too_long())
        } else {
            match r {
                Ok(ct) => ct.len() >= 16 && v7_wire(
                    key_bytes_spec(key),
                    ct.subrange(0, 16),
                    key,
                    aad,
                    cps_of(message),
                ) == Some(ct),
                Err(e) => e == msg_v7_exhausted() && v7_exhaustible(key, aad, cps_of(message)),
            }
        },
    }
}

/// v7 encryption of text under a fresh random nonce (deprecated format).
pub fn encrypt_bytes(message: &str, key: &[u64], aad: &[u8]) -> (r: Result<Vec<u8>, String>)
    requires
        aad@.len() < 0x1_0000_0000,
    ensures
        v7_encrypt_outcome(key@, aad@, message@, bytes_result(r)),
{
    match validate_key(key) {
        Err(e) => {
            return Err(e);
        },
        Ok(()) => {},
    }
    let cps = codepoints(message);
    if cps.len() > MAX_PLAINTEXT_CODEPOINTS {
        let mut s = String::from_str("message exceeds MAX_PLAINTEXT_CODEPOINTS (");
        push_dec(&mut s, MAX_PLAINTEXT_CODEPOINTS as u64);
        push_str(&mut s, ")");
        return Err(s);
    }
    let nonce = generate_nonce();
    let kb = key_bytes(key);
    match v7_encrypt_cps(cps.as_slice(), key, kb.as_slice(), &nonce, aad) {
        Some(ct) => {
            assert(ct@.subrange(0, 16) =~= nonce@);
            Ok(ct)
        },
        None => {
            assert(v7_wire(kb@, nonce@, key@, aad@, cps@) is None);
            Err(exhausted_message())
        },
    }
}

/// v7 encryption of arbitrary bytes (each byte a code point) under a fresh
/// random nonce (deprecated format).
pub fn encrypt_raw(data: &[u8], key: &[u64], aad: &[u8]) -> (r: Result<Vec<u8>, String>)
    requires
        aad@.len() < 0x1_0000_0000,
    ensures
        match key_check(key@) {
            Err(e) => bytes_result(r) == Err::<Seq<u8>, Seq<char>>(e),
            Ok(_) => if data@.len() > MAX_PLAINTEXT_CODEPOINTS {
                bytes_result(r) == Err::<Seq<u8>, Seq<char>>(msg_raw_too_long())
            } else {
                match r {
                    Ok(ct) => ct@.len() >= 16 && v7_wire(
                        key_bytes_spec(key@),
                        ct@.subrange(0, 16),
                        key@,
                        aad@,
                        cps_of_bytes(data@),
                    ) == Some(ct@),
                    Err(e) => e@ == msg_v7_exhausted() && v7_exhaustible(
                        key@,
                        aad@,
                        cps_of_bytes(data@),
                    ),
                }
            },
        },
{
    match validate_key(key) {
        Err(e) => {
            return Err(e);
        },
        Ok(()) => {},
    }
    if data.len() > MAX_PLAINTEXT_CODEPOINTS {
        let mut s = String::from_str("data exceeds MAX_PLAINTEXT_CODEPOINTS (");
        push_dec(&mut s, MAX_PLAINTEXT_CODEPOINTS as u64);
        push_str(&mut s, ") bytes");
        return Err(s);
    }
    let mut cps: Vec<u32> = Vec::new();
    let mut i: usize = 0;
    while i < data.len()
        invariant
            i <= data@.len(),
            cps@ == cps_of_bytes(data@).subrange(0, i as int),
        decreases data@.len() - i,
    {
        cps.push(data[i] as u32);
        proof {
            assert(cps_of_bytes(data@).subrange(0, i + 1) =~= cps_of_bytes(data@).subrange(
                0,
                i as int,
            ).push(data@[i as int] as u32));
        }
        i = i + 1;
    }
    assert(cps@ =~= cps_of_bytes(data@));
    let nonce = generate_nonce();
    let kb = key_bytes(key);
    match v7_encrypt_cps(cps.as_slice(), key, kb.as_slice(), &nonce, aad) {
        Some(ct) => {
            assert(ct@.subrange(0, 16) =~= nonce@);
            Ok(ct)
        },
        None => {
            assert(v7_wire(kb@, nonce@, key@, aad@, cps@) is None);
            Err(exhausted_message())
        },
    }
}

/// v7 low-level encryption: the random nonce and the token stream (empty
/// if emission left the position range).
pub fn encrypt(message: &[u32], key: &[u64]) -> (r: ([u8; 16], Vec<u64>))
    requires
        valid_key(key@),
        message@.len() <= MAX_PLAINTEXT_CODEPOINTS,
    ensures
        match v7_tokens(key_bytes_spec(key@), r.0@, key@, message@) {
            Some(t) => r.1@ == t,
            None => r.1@.len() == 0,
        },
{
    let nonce = generate_nonce();
    let kb = key_bytes(key);
    match v7_token_stream(message, key, kb.as_slice(), &nonce) {
        Some(t) => (nonce, t),
        None => (nonce, Vec::new()),
    }
}

// ---------------------------------------------------------------------------
// the decoder inverts the emitter
// ---------------------------------------------------------------------------

proof fn lemma_emit7_step(
    kb: Seq<u8>,
    nonce: Seq<u8>,
    thr: nat,
    primes: Seq<u64>,
    cps: Seq<u32>,
    i: nat,
)
    requires
        emit7(kb, nonce, thr, primes, cps, i + 1).2,
    ensures
        emit7(kb, nonce, thr, primes, cps, i).2,
        emit7(kb, nonce, thr, primes, cps, i).1 + run7(
            kb,
            nonce,
            thr,
            emit7(kb, nonce, thr, primes, cps, i).1,
            0,
        ) < POS_LIMIT,
        emit7(kb, nonce, thr, primes, cps, i + 1).1 == emit7(kb, nonce, thr, primes, cps, i).1
            + run7(kb, nonce, thr, emit7(kb, nonce, thr, primes, cps, i).1, 0) + 1,
        emit7(kb, nonce, thr, primes, cps, i + 1).0 == emit7(kb, nonce, thr, primes, cps, i).0
            + noise_tokens(
            kb,
            nonce,
            emit7(kb, nonce, thr, primes, cps, i).1,
            run7(kb, nonce, thr, emit7(kb, nonce, thr, primes, cps, i).1, 0),
            key_at(primes, i),
        ) + seq![real_token(kb, nonce, cps[i as int] as nat, i, key_at(primes, i)) as u64],
{
}

proof fn lemma_emit7_prefix(
    kb: Seq<u8>,
    nonce: Seq<u8>,
    thr: nat,
    primes: Seq<u64>,
    cps: Seq<u32>,
    i: nat,
    l: nat,
)
    requires
        i <= l,
        emit7(kb, nonce, thr, primes, cps, l).2,
    ensures
        emit7(kb, nonce, thr, primes, cps, i).2,
        emit7(kb, nonce, thr, primes, cps, i).1 <= emit7(kb, nonce, thr, primes, cps, l).1,
        emit7(kb, nonce, thr, primes, cps, l).0.subrange(
            0,
            emit7(kb, nonce, thr, primes, cps, i).1 as int,
        ) == emit7(kb, nonce, thr, primes, cps, i).0,
    decreases l - i,
{
    lemma_emit7_shape(kb, nonce, thr, primes, cps, l);
    if i < l {
        lemma_emit7_prefix(kb, nonce, thr, primes, cps, i + 1, l);
        lemma_emit7_step(kb, nonce, thr, primes, cps, i);
        lemma_emit7_shape(kb, nonce, thr, primes, cps, i);
        lemma_emit7_shape(kb, nonce, thr, primes, cps, i + 1);
        let a = emit7(kb, nonce, thr, primes, cps, i);
        let b = emit7(kb, nonce, thr, primes, cps, i + 1);
        let c = emit7(kb, nonce, thr, primes, cps, l);
        assert(b.0.subrange(0, a.1 as int) =~= a.0);
        assert(c.0.subrange(0, a.1 as int) =~= b.0.subrange(0, a.1 as int));
    } else {
        lemma_emit7_shape(kb, nonce, thr, primes, cps, i);
        assert(emit7(kb, nonce, thr, primes, cps, l).0.subrange(
            0,
            emit7(kb, nonce, thr, primes, cps, l).1 as int,
        ) =~= emit7(kb, nonce, thr, primes, cps, l).0);
    }
}

proof fn lemma_dec7_skip(
    kb: Seq<u8>,
    nonce: Seq<u8>,
    thr: nat,
    primes: Seq<u64>,
    toks: Seq<u64>,
    p: nat,
    j: nat,
    i: nat,
    acc: Seq<u32>,
)
    requires
        j <= run7(kb, nonce, thr, p, 0),
        p + run7(kb, nonce, thr, p, 0) < toks.len(),
    ensures
        dec7(kb, nonce, thr, primes, toks, p + j, i, acc) == dec7(
            kb,
            nonce,
            thr,
            primes,
            toks,
            p + run7(kb, nonce, thr, p, 0),
            i,
            acc,
        ),
    decreases run7(kb, nonce, thr, p, 0) - j,
{
    if j < run7(kb, nonce, thr, p, 0) {
        lemma_run7_noise(kb, nonce, thr, p, 0, j);
        lemma_dec7_skip(kb, nonce, thr, primes, toks, p, j + 1, i, acc);
    }
}

proof fn lemma_dec7_emit7(
    kb: Seq<u8>,
    nonce: Seq<u8>,
    thr: nat,
    primes: Seq<u64>,
    cps: Seq<u32>,
    i: nat,
)
    requires
        token_primes(primes),
        all_scalar(cps),
        i <= cps.len(),
        emit7(kb, nonce, thr, primes, cps, cps.len()).2,
    ensures
        dec7(
            kb,
            nonce,
            thr,
            primes,
            emit7(kb, nonce, thr, primes, cps, cps.len()).0,
            emit7(kb, nonce, thr, primes, cps, i).1,
            i,
            cps.subrange(0, i as int),
        ) == Ok::<Seq<u32>, TokenFailure>(cps),
    decreases cps.len() - i,
{
    let l = cps.len();
    let toks = emit7(kb, nonce, thr, primes, cps, l).0;
    lemma_emit7_shape(kb, nonce, thr, primes, cps, l);
    if i == l {
        assert(cps.subrange(0, i as int) =~= cps);
    } else {
        lemma_emit7_prefix(kb, nonce, thr, primes, cps, i + 1, l);
        lemma_emit7_step(kb, nonce, thr, primes, cps, i);
        lemma_emit7_shape(kb, nonce, thr, primes, cps, i + 1);
        let a = emit7(kb, nonce, thr, primes, cps, i);
        let b = emit7(kb, nonce, thr, primes, cps, i + 1);
        let p = a.1;
        let r = run7(kb, nonce, thr, p, 0);
        let q = p + r;
        assert(q < b.0.len());
        assert(toks.subrange(0, b.1 as int) == b.0);
        assert(toks[q as int] == b.0[q as int]);
        lemma_dec7_skip(kb, nonce, thr, primes, toks, p, 0, i, cps.subrange(0, i as int));
        lemma_run7_end(kb, nonce, thr, p, 0);
        let k = key_at(primes, i);
        let ki = (i % primes.len()) as int;
        assert(2 <= primes[ki] <= 0xFFFF_FFFF);
        let ad = addend(kb, nonce, i, k);
        crate::tokens::lemma_addend_range(kb, nonce, i, k);
        let c = cps[i as int] as nat;
        assert(c * k + ad < 0x1_0000_0000 * 0x1_0000_0000) by (nonlinear_arith)
            requires
                c < 0x1_0000_0000,
                k <= 0xFFFF_FFFF,
                ad < k,
        ;
        assert(toks[q as int] as nat == c * k + ad);
        crate::tokens::lemma_recover(c, k, ad);
        assert(cps.subrange(0, i as int).push(c as u32) =~= cps.subrange(0, (i + 1) as int));
        lemma_dec7_emit7(kb, nonce, thr, primes, cps, i + 1);
    }
}

/// v7 decryption gives back every text that v7 encryption produced, under
/// every nonce for which the emitter finished.
pub proof fn lemma_v7_roundtrip(key: Seq<u64>, nonce: Seq<u8>, aad: Seq<u8>, msg: Seq<char>)
    requires
        valid_key(key),
        nonce.len() == 16,
        msg.len() <= MAX_PLAINTEXT_CODEPOINTS,
        v7_wire(key_bytes_spec(key), nonce, key, aad, cps_of(msg)) is Some,
    ensures
        decrypt_bytes_spec(
            key,
            aad,
            v7_wire(key_bytes_spec(key), nonce, key, aad, cps_of(msg))->Some_0,
        ) == Ok::<Seq<char>, Seq<char>>(msg),
{
    lemma_cps_of(msg);
    lemma_v7_roundtrip_cps(key, nonce, aad, cps_of(msg));
}

/// v7 raw decryption gives back every byte string that v7 raw encryption
/// produced, under every nonce for which the emitter finished.
pub proof fn lemma_v7_raw_roundtrip(key: Seq<u64>, nonce: Seq<u8>, aad: Seq<u8>, data: Seq<u8>)
    requires
        valid_key(key),
        nonce.len() == 16,
        data.len() <= MAX_PLAINTEXT_CODEPOINTS,
        v7_wire(key_bytes_spec(key), nonce, key, aad, cps_of_bytes(data)) is Some,
    ensures
        decrypt_raw_spec(
            key,
            aad,
            v7_wire(key_bytes_spec(key), nonce, key, aad, cps_of_bytes(data))->Some_0,
        ) == Ok::<Seq<u8>, Seq<char>>(data),
{
    let cps = cps_of_bytes(data);
    assert(all_scalar(cps)) by {
        assert forall|i: int| 0 <= i < cps.len() implies is_scalar(#[trigger] cps[i] as nat) by {
        }
    }
    lemma_v7_roundtrip_cps(key, nonce, aad, cps);
    lemma_first_non_byte_none(cps, 0);
    assert(bytes_of(cps) =~= data);
}

proof fn lemma_first_non_byte_none(cps: Seq<u32>, i: nat)
    requires
        forall|j: int| 0 <= j < cps.len() ==> #[trigger] cps[j] <= 0xFF,
    ensures
        first_non_byte(cps, i) is None,
    decreases cps.len() - i,
{
    if i < cps.len() {
        lemma_first_non_byte_none(cps, i + 1);
    }
}

proof fn lemma_v7_roundtrip_cps(key: Seq<u64>, nonce: Seq<u8>, aad: Seq<u8>, cps: Seq<u32>)
    requires
        valid_key(key),
        nonce.len() == 16,
        cps.len() <= MAX_PLAINTEXT_CODEPOINTS,
        all_scalar(cps),
        v7_wire(key_bytes_spec(key), nonce, key, aad, cps) is Some,
    ensures
        key_check(key) is Ok,
        v7_wire(key_bytes_spec(key), nonce, key, aad, cps)->Some_0.len() >= 48,
        decrypt_v7_cps(key, aad, v7_wire(key_bytes_spec(key), nonce, key, aad, cps)->Some_0)
            == Ok::<Seq<u32>, Seq<char>>(cps),
{
    lemma_key_check_ok(key);
    crate::aead::lemma_valid_key_tokens(key);
    let kb = key_bytes_spec(key);
    let b = pow2(bucket_exp(cps.len()));
    crate::padding::lemma_bucket_above(cps.len());
    let padded = pad_spec(cps, kb, nonce, b);
    lemma_pad_spec_shape(cps, kb, nonce, b);
    let thr = noise_p_v7(kb, nonce);
    let e = emit7(kb, nonce, thr, key, padded, padded.len());
    let toks = e.0;
    let blob = fixed_encode(toks);
    lemma_fixed_encode_len(toks);
    let ks = keystream_spec(kb, nonce, blob.len());
    lemma_keystream_len(kb, nonce, blob.len());
    let masked = xor_seq(blob, ks);
    let tag = auth_tag(kb, aad, nonce, masked, 4);
    let ct = nonce + masked + tag;
    assert(ct == v7_wire(kb, nonce, key, aad, cps)->Some_0);
    let split = ct.len() - 32;
    let payload = ct.subrange(0, split);
    assert(payload =~= nonce + masked);
    assert(payload.subrange(0, 16) =~= nonce);
    assert(payload.subrange(16, payload.len() as int) =~= masked);
    assert(ct.subrange(split, ct.len() as int) =~= tag);
    lemma_xor_involution(blob, ks);
    lemma_fixed_decode_encode(toks);
    lemma_dec7_emit7(kb, nonce, thr, key, padded, 0);
    assert(padded.subrange(0, 0) =~= seq![]);
    lemma_unpad_pad(cps, kb, nonce, b);
}

/// At the token level, `decrypt` inverts `encrypt`: the tokens emitted for
/// Unicode scalar values `cps` under a nonce decode, under the same nonce
/// and key, to `cps`.
pub proof fn lemma_v7_token_roundtrip(key: Seq<u64>, nonce: Seq<u8>, cps: Seq<u32>)
    requires
        valid_key(key),
        cps.len() <= MAX_PLAINTEXT_CODEPOINTS,
        all_scalar(cps),
        v7_tokens(key_bytes_spec(key), nonce, key, cps) is Some,
    ensures
        decrypt_core_spec(
            nonce,
            v7_tokens(key_bytes_spec(key), nonce, key, cps)->Some_0,
            key,
            key_bytes_spec(key),
        ) == Ok::<Seq<u32>, Seq<char>>(cps),
{
    crate::aead::lemma_valid_key_tokens(key);
    let kb = key_bytes_spec(key);
    let b = pow2(bucket_exp(cps.len()));
    crate::padding::lemma_bucket_above(cps.len());
    let padded = pad_spec(cps, kb, nonce, b);
    lemma_pad_spec_shape(cps, kb, nonce, b);
    let thr = noise_p_v7(kb, nonce);
    lemma_dec7_emit7(kb, nonce, thr, key, padded, 0);
    assert(padded.subrange(0, 0) =~= seq![]);
    lemma_unpad_pad(cps, kb, nonce, b);
}

// ---------------------------------------------------------------------------
// decryption
// ---------------------------------------------------------------------------

fn decrypt_v7_to_cps(ciphertext: &[u8], key: &[u64], aad: &[u8]) -> (r: Result<Vec<u32>, String>)
    requires
        valid_key(key@),
        48 <= ciphertext@.len() <= max_keystream_len(),
        aad@.len() < 0x1_0000_0000,
    ensures
        match r {
            Ok(v) => decrypt_v7_cps(key@, aad@, ciphertext@) == Ok::<Seq<u32>, Seq<char>>(v@)
                && all_scalar(v@),
            Err(e) => decrypt_v7_cps(key@, aad@, ciphertext@) == Err::<Seq<u32>, Seq<char>>(e@),
        },
{
    let kb = key_bytes(key);
    proof {
        lemma_byte_pow_values();
    }
    let (nonce, blob) = match open_sealed(kb.as_slice(), ciphertext, aad, 4) {
        None => {
            return Err(String::from_str("Authentication failed: invalid HMAC tag."));
        },
        Some(p) => p,
    };
    let tokens = match fixed_decode_tokens(blob.as_slice()) {
        Ok(t) => t,
        Err(e) => {
            let mut s = String::from_str("varint decode error: ");
            push_str(&mut s, e.as_str());
            return Err(s);
        },
    };
    decrypt_core(nonce.as_slice(), tokens.as_slice(), key, kb.as_slice())
}

/// Decrypts v7 text; refuses tampered, truncated or malformed ciphertexts.
pub fn decrypt_bytes(ciphertext: &[u8], key: &[u64], aad: &[u8]) -> (r: Result<String, String>)
    requires
        ciphertext@.len() <= max_keystream_len(),
        aad@.len() < 0x1_0000_0000,
    ensures
        string_result(r) == decrypt_bytes_spec(key@, aad@, ciphertext@),
{
    match validate_key(key) {
        Err(e) => {
            return Err(e);
        },
        Ok(()) => {},
    }
    if ciphertext.len() < 48 {
        return Err(ct_short_message(ciphertext.len()));
    }
    match decrypt_v7_to_cps(ciphertext, key, aad) {
        Err(e) => Err(e),
        Ok(cps) => Ok(string_of_scalars(cps.as_slice())),
    }
}

/// Decrypts v7 raw bytes; refuses any recovered code point above 255.
pub fn decrypt_raw(ciphertext: &[u8], key: &[u64], aad: &[u8]) -> (r: Result<Vec<u8>, String>)
    requires
        ciphertext@.len() <= max_keystream_len(),
        aad@.len() < 0x1_0000_0000,
    ensures
        bytes_result(r) == decrypt_raw_spec(key@, aad@, ciphertext@),
{
    match validate_key(key) {
        Err(e) => {
            return Err(e);
        },
        Ok(()) => {},
    }
    if ciphertext.len() < 48 {
        return Err(ct_short_message(ciphertext.len()));
    }
    proof {
        lemma_key_check_ok(key@);
    }
    let cps = match decrypt_v7_to_cps(ciphertext, key, aad) {
        Err(e) => {
            return Err(e);
        },
        Ok(c) => c,
    };
    let mut out: Vec<u8> = Vec::new();
    let mut i: usize = 0;
    while i < cps.len()
        invariant
            i <= cps@.len(),
            key_check(key@) is Ok,
            ciphertext@.len() >= 48,
            decrypt_v7_cps(key@, aad@, ciphertext@) == Ok::<Seq<u32>, Seq<char>>(cps@),
            first_non_byte(cps@, 0) == first_non_byte(cps@, i as nat),
            out@ == bytes_of(cps@.subrange(0, i as int)),
        decreases cps@.len() - i,
    {
        if cps[i] > 0xFF {
            let mut s = String::from_str("Malformed v7 raw ciphertext: recovered codepoint ");
            push_dec(&mut s, cps[i] as u64);
            push_str(&mut s, " at position ");
            push_dec(&mut s, i as u64);
            push_str(
                &mut s,
                " is out of byte range [0, 255]. This usually means the ciphertext was produced by `encrypt_bytes` (codepoint-oriented) rather than `encrypt_raw` (byte-oriented); the two use incompatible message encodings (CVF-14).",
            );
            proof {
                assert(first_non_byte(cps@, i as nat) == Some(i as nat));
                assert(s@ =~= msg_raw_range(cps@[i as int] as nat, i as nat));
            }
            return Err(s);
        }
        out.push(cps[i] as u8);
        proof {
            assert(bytes_of(cps@.subrange(0, i + 1)) =~= bytes_of(cps@.subrange(0, i as int)).push(
                cps@[i as int] as u8,
            ));
        }
        i = i + 1;
    }
    assert(cps@.subrange(0, i as int) =~= cps@);
    Ok(out)
}

/// v7 encryption of text, as standard base64 text (deprecated format).
pub fn encrypt_str(message: &str, key: &[u64], aad: &[u8]) -> (r: Result<String, String>)
    requires
        aad@.len() < 0x1_0000_0000,
    ensures
        match r {
            Ok(text) => exists|ct: Seq<u8>|
                #![trigger base64_encode(ct)]
                text@ == base64_encode(ct) && v7_encrypt_outcome(
                    key@,
                    aad@,
                    message@,
                    Ok::<Seq<u8>, Seq<char>>(ct),
                ),
            Err(e) => v7_encrypt_outcome(key@, aad@, message@, Err::<Seq<u8>, Seq<char>>(e@)),
        },
{
    match validate_key(key) {
        Err(e) => {
            return Err(e);
        },
        Ok(()) => {},
    }
    match encrypt_bytes(message, key, aad) {
        Err(e) => Err(e),
        Ok(ct) => {
            let text = base64_std_encode(ct.as_slice());
            assert(text@ == base64_encode(ct@));
            Ok(text)
        },
    }
}

/// v7 decryption of standard base64 text: key check, base64 decoding, then
/// `decrypt_bytes`.
pub open spec fn decrypt_str_spec(key: Seq<u64>, aad: Seq<u8>, text: Seq<char>) -> Result<
    Seq<char>,
    Seq<char>,
> {
    match key_check(key) {
        Err(e) => Err(e),
        Ok(_) => match base64_decode(text) {
            Err(e) => Err("base64 decode error: "@ + e),
            Ok(ct) => decrypt_bytes_spec(key, aad, ct),
        },
    }
}

/// v7 decryption of standard base64 text (deprecated format).
pub fn decrypt_str(cypher: &str, key: &[u64], aad: &[u8]) -> (r: Result<String, String>)
    requires
        cypher@.len() <= max_keystream_len(),
        aad@.len() < 0x1_0000_0000,
    ensures
        string_result(r) == decrypt_str_spec(key@, aad@, cypher@),
        forall|ct: Seq<u8>|
            #[trigger] base64_encode(ct) == cypher@ ==> string_result(r) == match key_check(key@) {
                Err(e) => Err::<Seq<char>, Seq<char>>(e),
                Ok(_) => decrypt_bytes_spec(key@, aad@, ct),
            },
{
    match validate_key(key) {
        Err(e) => {
            return Err(e);
        },
        Ok(()) => {},
    }
    let bytes = match base64_std_decode(cypher) {
        Err(e) => {
            let mut s = String::from_str("base64 decode error: ");
            push_str(&mut s, e.as_str());
            return Err(s);
        },
        Ok(b) => b,
    };
    proof {
        lemma_base64_encode(bytes@, bytes@);
        assert forall|ct: Seq<u8>| #[trigger] base64_encode(ct) == cypher@ implies ct == bytes@ by {
            lemma_base64_encode(ct, bytes@);
        }
    }
    decrypt_bytes(bytes.as_slice(), key, aad)
}

/// Every ciphertext that v7 text encryption produced decrypts to its
/// message under the same key and AAD; with `decrypt_str`'s contract on a
/// text that is the base64 encoding of `ct`, `decrypt_str` gives back the
/// message from `encrypt_str`'s text.
pub proof fn lemma_v7_str_roundtrip(key: Seq<u64>, aad: Seq<u8>, msg: Seq<char>, ct: Seq<u8>)
    requires
        v7_encrypt_outcome(key, aad, msg, Ok::<Seq<u8>, Seq<char>>(ct)),
    ensures
        key_check(key) is Ok,
        decrypt_bytes_spec(key, aad, ct) == Ok::<Seq<char>, Seq<char>>(msg),
{
    lemma_key_check_ok(key);
    lemma_v7_roundtrip(key, ct.subrange(0, 16), aad, msg);
}

} // verus!
