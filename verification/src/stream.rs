//! The v8 streaming format:
//! `0x02 || be4(F) || nonce(16)`, then one frame
//! `be4(F*160) || masked(F*160) || tag(32)` per chunk of `F` code points (the
//! last chunk completed with key-derived filler), then the sentinel
//! `be4(0) || be8(code point count) || tag(32)`. Chunk `i` is a v8 token
//! stream under its own nonce `sub_nonce(i)`; every tag binds the stream
//! nonce, the chunk index and the AAD, so chunks cannot be reordered,
//! dropped or cut off unnoticed.
use crate::aead::{lemma_valid_key_tokens, string_result, FORMAT_STREAM_AE_V8, SK_SIZE};
use crate::bytes::{
    append_bytes, be_bytes, be_encode, be_read, be_value, byte_pow, lemma_be_encode_len,
    lemma_be_value_bound, lemma_be_value_encode, lemma_byte_pow_values, lemma_xor_involution,
    xor_bytes, xor_seq,
};
use crate::chars::{all_scalar, chars_of, codepoints, cps_of, lemma_cps_of, string_of_scalars};
use crate::derive::{
    chunk_tag_spec, compute_stream_v8_chunk_tag, compute_stream_v8_sentinel_tag,
    derive_format_subkey, derive_noise_threshold_v8, derive_pad_cp, derive_stream_v8_sub_nonce,
    format_subkey, keystream_spec, lemma_keystream_len, pad_cp, sentinel_tag_spec,
    sub_nonce_spec, theta_v8, varint_keystream,
};
use crate::legacy::generate_nonce;
use crate::primes::{key_check, lemma_key_check_ok, valid_key, validate_key};
use crate::primitives::{ct_eq_bytes, is_scalar};
use crate::text::{dec, hex2, push_dec, push_hex2, push_str};
use crate::tokens::{
    dec8, decode_tokens_v8, emit_tokens_v8, fixed_decode, fixed_decode_tokens, fixed_encode,
    fixed_encode_tokens, lemma_dec8_len, lemma_dec8_scalar, lemma_decode_tokens8, lemma_fixed_decode_encode,
    lemma_fixed_encode_len, lemma_tokens8_len, token_primes, tokens8, TokenFailure,
};
use vstd::prelude::*;

verus! {

/// Default number of code points per chunk.
pub const STREAM_AE_V8_DEFAULT_FRAME: u32 = 128;

/// Largest number of code points per chunk.
pub const STREAM_AE_V8_MAX_FRAME: u32 = 16_384;

/// Length of the stream header.
pub const STREAM_HEADER_SIZE: usize = 21;

/// The masked token blob of one chunk under its nonce `sub`.
pub open spec fn chunk_masked(sk_fmt: Seq<u8>, sub: Seq<u8>, primes: Seq<u64>, chunk: Seq<u32>) -> Seq<
    u8,
> {
    let blob = fixed_encode(tokens8(sk_fmt, sub, theta_v8(sk_fmt, sub), primes, chunk));
    xor_seq(blob, keystream_spec(sk_fmt, sub, blob.len()))
}

/// The frame of chunk `idx` with code points `chunk`.
#[verifier::opaque]
pub open spec fn chunk_frame(
    sk_fmt: Seq<u8>,
    nonce: Seq<u8>,
    primes: Seq<u64>,
    aad: Seq<u8>,
    chunk: Seq<u32>,
    idx: nat,
) -> Seq<u8> {
    let masked = chunk_masked(sk_fmt, sub_nonce_spec(sk_fmt, nonce, idx), primes, chunk);
    be_encode(masked.len(), 4) + masked + chunk_tag_spec(sk_fmt, nonce, idx, aad, masked)
}

/// Number of chunks for `n` code points.
pub open spec fn chunk_count(n: nat, f: nat) -> nat {
    ((n + f - 1) as nat) / f
}

/// Code points of chunk `j`: `F` of the message, or the remainder
/// completed with filler derived under the chunk's nonce.
pub open spec fn chunk_cps(sk_fmt: Seq<u8>, nonce: Seq<u8>, cps: Seq<u32>, f: nat, j: nat) -> Seq<
    u32,
> {
    if (j + 1) * f <= cps.len() {
        cps.subrange((j * f) as int, ((j + 1) * f) as int)
    } else {
        cps.subrange((j * f) as int, cps.len() as int) + Seq::new(
            ((j + 1) * f - cps.len()) as nat,
            |t: int| pad_cp(sk_fmt, sub_nonce_spec(sk_fmt, nonce, j), t as nat) as u32,
        )
    }
}

/// The frames of the first `n` chunks.
pub open spec fn stream_frames(
    sk_fmt: Seq<u8>,
    nonce: Seq<u8>,
    primes: Seq<u64>,
    aad: Seq<u8>,
    cps: Seq<u32>,
    f: nat,
    n: nat,
) -> Seq<u8>
    decreases n,
{
    if n == 0 {
        Seq::empty()
    } else {
        stream_frames(sk_fmt, nonce, primes, aad, cps, f, (n - 1) as nat) + chunk_frame(
            sk_fmt,
            nonce,
            primes,
            aad,
            chunk_cps(sk_fmt, nonce, cps, f, (n - 1) as nat),
            (n - 1) as nat,
        )
    }
}

/// The sentinel closing a stream of `count` chunks and `total` code points.
pub open spec fn sentinel(sk_fmt: Seq<u8>, nonce: Seq<u8>, aad: Seq<u8>, count: nat, total: nat) -> Seq<
    u8,
> {
    be_encode(0, 4) + be_encode(total, 8) + sentinel_tag_spec(sk_fmt, nonce, count, aad, total)
}

/// The stream header.
pub open spec fn stream_header(f: nat, nonce: Seq<u8>) -> Seq<u8> {
    seq![FORMAT_STREAM_AE_V8] + be_encode(f, 4) + nonce
}

/// The whole stream of `msg` with frame size `f` and stream nonce `nonce`.
pub open spec fn stream_ct(
    primes: Seq<u64>,
    sk: Seq<u8>,
    nonce: Seq<u8>,
    aad: Seq<u8>,
    msg: Seq<char>,
    f: nat,
) -> Seq<u8> {
    let sk_fmt = format_subkey(sk, FORMAT_STREAM_AE_V8);
    let cps = cps_of(msg);
    let c = chunk_count(cps.len(), f);
    stream_header(f, nonce) + stream_frames(sk_fmt, nonce, primes, aad, cps, f, c) + sentinel(
        sk_fmt,
        nonce,
        aad,
        c,
        cps.len(),
    )
}

pub open spec fn msg_bad_frame_size(f: nat) -> Seq<char> {
    "frame_codepoints must be in [1, "@ + dec(STREAM_AE_V8_MAX_FRAME as nat) + "], got "@ + dec(f)
}

/// Streaming encryption with a caller-chosen nonce: key check, frame-size
/// check, then the stream.
pub open spec fn encrypt_stream_spec(
    primes: Seq<u64>,
    sk: Seq<u8>,
    nonce: Seq<u8>,
    aad: Seq<u8>,
    msg: Seq<char>,
    f: nat,
) -> Result<Seq<u8>, Seq<char>> {
    match key_check(primes) {
        Err(e) => Err(e),
        Ok(_) => if f < 1 || f > STREAM_AE_V8_MAX_FRAME {
            Err(msg_bad_frame_size(f))
        } else {
            Ok(stream_ct(primes, sk, nonce, aad, msg, f))
        },
    }
}

/// Refuses a frame size outside `[1, STREAM_AE_V8_MAX_FRAME]`.
pub fn validate_stream_v8_frame(f: u32) -> (r: Result<(), String>)
    ensures
        match r {
            Ok(()) => 1 <= f <= STREAM_AE_V8_MAX_FRAME,
            Err(e) => !(1 <= f <= STREAM_AE_V8_MAX_FRAME) && e@ == msg_bad_frame_size(f as nat),
        },
{
    if f < 1 || f > STREAM_AE_V8_MAX_FRAME {
        let mut s = String::from_str("frame_codepoints must be in [1, ");
        push_dec(&mut s, STREAM_AE_V8_MAX_FRAME as u64);
        push_str(&mut s, "], got ");
        push_dec(&mut s, f as u64);
        return Err(s);
    }
    Ok(())
}

/// Exactly `20 * F` tokens for one chunk of `F` code points.
pub fn encrypt_v8_stream_chunk_core(
    chunk_cps: &[u32],
    primes: &[u64],
    sk_fmt: &[u8; 32],
    sub_nonce: &[u8; 16],
) -> (out: Vec<u64>)
    requires
        valid_key(primes@),
        chunk_cps@.len() <= STREAM_AE_V8_MAX_FRAME,
    ensures
        out@ == tokens8(
            sk_fmt@,
            sub_nonce@,
            theta_v8(sk_fmt@, sub_nonce@),
            primes@,
            chunk_cps@,
        ),
{
    proof {
        lemma_valid_key_tokens(primes@);
    }
    let theta = derive_noise_threshold_v8(sk_fmt, sub_nonce);
    emit_tokens_v8(sk_fmt, sub_nonce, theta, primes, chunk_cps)
}

/// Domain 0x06 filler code point number `fill_idx` of a final chunk.
pub fn derive_stream_v8_filler_cp(sk_fmt: &[u8; 32], sub_nonce: &[u8; 16], fill_idx: u32) -> (c: u32)
    ensures
        c as nat == pad_cp(sk_fmt@, sub_nonce@, fill_idx as nat),
        32 <= c <= 126,
{
    derive_pad_cp(sk_fmt, sub_nonce, fill_idx)
}

/// The frame of chunk `idx`.
pub fn emit_stream_v8_chunk(
    codepoints_f: &[u32],
    idx: u32,
    primes: &[u64],
    sk_fmt: &[u8; 32],
    nonce: &[u8; 16],
    aad: &[u8],
) -> (out: Vec<u8>)
    requires
        valid_key(primes@),
        codepoints_f@.len() <= STREAM_AE_V8_MAX_FRAME,
    ensures
        out@ == chunk_frame(sk_fmt@, nonce@, primes@, aad@, codepoints_f@, idx as nat),
        out@.len() == 4 + 160 * codepoints_f@.len() + 32,
        out@.subrange(0, 4) == be_encode(160 * codepoints_f@.len(), 4),
{
    proof {
        reveal(chunk_frame);
    }
    let sub_nonce = derive_stream_v8_sub_nonce(sk_fmt, nonce, idx);
    let tokens = encrypt_v8_stream_chunk_core(codepoints_f, primes, sk_fmt, &sub_nonce);
    proof {
        lemma_tokens8_len(
            sk_fmt@,
            sub_nonce@,
            theta_v8(sk_fmt@, sub_nonce@),
            primes@,
            codepoints_f@,
        );
        lemma_fixed_encode_len(tokens@);
        lemma_byte_pow_values();
    }
    let blob = fixed_encode_tokens(tokens.as_slice());
    let ks = varint_keystream(sk_fmt, &sub_nonce, blob.len());
    proof {
        lemma_keystream_len(sk_fmt@, sub_nonce@, blob@.len());
    }
    let masked = xor_bytes(blob.as_slice(), ks.as_slice());
    let tag = compute_stream_v8_chunk_tag(sk_fmt, nonce, idx, aad, masked.as_slice());
    let mut out: Vec<u8> = Vec::new();
    let lb = be_bytes(masked.len() as u64, 4);
    proof {
        lemma_be_encode_len(masked@.len(), 4);
    }
    append_bytes(&mut out, lb.as_slice());
    append_bytes(&mut out, masked.as_slice());
    append_bytes(&mut out, &tag);
    proof {
        assert(out@.subrange(0, 4) =~= lb@);
    }
    out
}

/// `chunk_count` in closed form, and the bound on the start of each chunk.
proof fn lemma_chunk_count(n: nat, f: nat)
    requires
        f >= 1,
    ensures
        chunk_count(n, f) == n / f + (if n % f == 0 {
            0nat
        } else {
            1nat
        }),
        chunk_count(n, f) * f >= n,
        chunk_count(n, f) <= n,
{
    let q = n / f;
    let r = n % f;
    assert(n == f * q + r) by {
        vstd::arithmetic::div_mod::lemma_fundamental_div_mod(n as int, f as int);
    }
    assert(q * f == f * q) by (nonlinear_arith);
    if r == 0 {
        vstd::arithmetic::div_mod::lemma_fundamental_div_mod_converse(
            (n + f - 1) as int,
            f as int,
            q as int,
            (f - 1) as int,
        );
        assert(q <= n) by (nonlinear_arith)
            requires
                n == q * f,
                f >= 1,
                q >= 0,
        ;
    } else {
        assert((q + 1) * f == q * f + f) by (nonlinear_arith);
        vstd::arithmetic::div_mod::lemma_fundamental_div_mod_converse(
            (n + f - 1) as int,
            f as int,
            (q + 1) as int,
            (r - 1) as int,
        );
        assert(q + 1 <= n) by (nonlinear_arith)
            requires
                n == q * f + r,
                f >= 1,
                r >= 1,
                q >= 0,
        ;
    }
}

/// Every chunk before the last starts inside the message.
proof fn lemma_chunk_start(j: nat, n: nat, f: nat)
    requires
        f >= 1,
        j < chunk_count(n, f),
    ensures
        j * f < n,
        j < n,
{
    let c = chunk_count(n, f);
    let m = ((n + f - 1) as nat) % f;
    assert((n + f - 1) as nat == f * c + m) by {
        vstd::arithmetic::div_mod::lemma_fundamental_div_mod((n + f - 1) as int, f as int);
    }
    assert(j * f < n) by (nonlinear_arith)
        requires
            j + 1 <= c,
            (n + f - 1) == f * c + m,
            0 <= m,
            f >= 1,
    {
        assert((j + 1) * f <= c * f);
    }
    assert(j <= j * f) by (nonlinear_arith)
        requires
            f >= 1,
    ;
}

/// The code points of chunk `j`, completed with filler when the message
/// ends inside it.
fn chunk_codepoints(cps: &[u32], f: usize, j: u32, sk_fmt: &[u8; 32], nonce: &[u8; 16]) -> (out: Vec<
    u32,
>)
    requires
        1 <= f <= STREAM_AE_V8_MAX_FRAME,
        (j as nat) * f < cps@.len(),
    ensures
        out@ == chunk_cps(sk_fmt@, nonce@, cps@, f as nat, j as nat),
        out@.len() == f,
{
    let len = cps.len();
    proof {
        assert((j as nat + 1) * (f as nat) == (j as nat) * (f as nat) + f) by (nonlinear_arith);
    }
    let start = (j as usize) * f;
    let full = len - start >= f;
    let end = if full {
        start + f
    } else {
        len
    };
    let mut out: Vec<u32> = Vec::new();
    let mut i: usize = start;
    while i < end
        invariant
            start <= i <= end <= cps@.len(),
            out@ == cps@.subrange(start as int, i as int),
        decreases end - i,
    {
        out.push(cps[i]);
        proof {
            assert(cps@.subrange(start as int, i + 1) =~= cps@.subrange(start as int, i as int).push(
                cps@[i as int],
            ));
        }
        i = i + 1;
    }
    if !full {
        let sub = derive_stream_v8_sub_nonce(sk_fmt, nonce, j);
        let ghost part = out@;
        let fill_needed = f - (end - start);
        let mut t: usize = 0;
        while t < fill_needed
            invariant
                t <= fill_needed <= f <= STREAM_AE_V8_MAX_FRAME,
                sub@ == sub_nonce_spec(sk_fmt@, nonce@, j as nat),
                out@ == part + Seq::new(
                    t as nat,
                    |q: int| pad_cp(sk_fmt@, sub@, q as nat) as u32,
                ),
            decreases fill_needed - t,
        {
            let c = derive_stream_v8_filler_cp(sk_fmt, &sub, t as u32);
            out.push(c);
            proof {
                assert(Seq::new((t + 1) as nat, |q: int| pad_cp(sk_fmt@, sub@, q as nat) as u32)
                    =~= Seq::new(t as nat, |q: int| pad_cp(sk_fmt@, sub@, q as nat) as u32).push(
                    c,
                ));
            }
            t = t + 1;
        }
        proof {
            assert(!((j as nat + 1) * (f as nat) <= cps@.len()));
            assert(fill_needed == (j as nat + 1) * (f as nat) - cps@.len());
            assert(out@ =~= chunk_cps(sk_fmt@, nonce@, cps@, f as nat, j as nat));
        }
    } else {
        proof {
            assert((j as nat + 1) * (f as nat) <= cps@.len());
            assert(out@ =~= chunk_cps(sk_fmt@, nonce@, cps@, f as nat, j as nat));
        }
    }
    out
}

/// Deterministic streaming encryption with a caller-chosen nonce (for
/// known-answer tests): reusing a nonce under one `sk` is catastrophic.
pub fn encrypt_stream_ae_v8_with_nonce(
    plaintext: &str,
    primes: &[u64],
    sk: &[u8; SK_SIZE],
    nonce: &[u8; 16],
    aad: &[u8],
    frame_codepoints: u32,
) -> (r: Result<Vec<u8>, String>)
    requires
        frame_codepoints >= 1 ==> chunk_count(plaintext@.len(), frame_codepoints as nat)
            <= 0xFFFF_FFFF,
    ensures
        crate::aead::bytes_result(r) == encrypt_stream_spec(
            primes@,
            sk@,
            nonce@,
            aad@,
            plaintext@,
            frame_codepoints as nat,
        ),
{
    match validate_key(primes) {
        Err(e) => {
            return Err(e);
        },
        Ok(()) => {},
    }
    match validate_stream_v8_frame(frame_codepoints) {
        Err(e) => {
            return Err(e);
        },
        Ok(()) => {},
    }
    let f = frame_codepoints as usize;
    let sk_fmt = derive_format_subkey(sk, FORMAT_STREAM_AE_V8);
    let cps = codepoints(plaintext);
    proof {
        lemma_cps_of(plaintext@);
    }
    let mut stream: Vec<u8> = Vec::new();
    stream.push(FORMAT_STREAM_AE_V8);
    let fb = be_bytes(frame_codepoints as u64, 4);
    append_bytes(&mut stream, fb.as_slice());
    append_bytes(&mut stream, nonce);
    let ghost cps_s = cps@;
    let ghost header = stream@;
    assert(header =~= stream_header(f as nat, nonce@));
    let n = cps.len();
    proof {
        lemma_chunk_count(n as nat, f as nat);
    }
    let count: usize = if n % f == 0 {
        n / f
    } else {
        n / f + 1
    };
    let mut chunk_idx: u32 = 0;
    while (chunk_idx as usize) < count
        invariant
            1 <= f <= STREAM_AE_V8_MAX_FRAME,
            n == cps@.len(),
            count == chunk_count(n as nat, f as nat) <= 0xFFFF_FFFF,
            valid_key(primes@),
            chunk_idx <= count,
            stream@ == header + stream_frames(sk_fmt@, nonce@, primes@, aad@, cps@, f as nat, chunk_idx as nat),
        decreases count - chunk_idx,
    {
        proof {
            lemma_chunk_start(chunk_idx as nat, n as nat, f as nat);
        }
        let chunk = chunk_codepoints(cps.as_slice(), f, chunk_idx, &sk_fmt, nonce);
        let frame = emit_stream_v8_chunk(chunk.as_slice(), chunk_idx, primes, &sk_fmt, nonce, aad);
        append_bytes(&mut stream, frame.as_slice());
        chunk_idx = chunk_idx + 1;
    }
    proof {
        lemma_byte_pow_values();
    }
    let tag = compute_stream_v8_sentinel_tag(&sk_fmt, nonce, chunk_idx, aad, n as u64);
    let zb = be_bytes(0, 4);
    let tb = be_bytes(n as u64, 8);
    append_bytes(&mut stream, zb.as_slice());
    append_bytes(&mut stream, tb.as_slice());
    append_bytes(&mut stream, &tag);
    proof {
        let sk_f = format_subkey(sk@, FORMAT_STREAM_AE_V8);
        assert(sk_fmt@ == sk_f);
        assert(cps@ == cps_of(plaintext@));
        assert(chunk_idx as nat == chunk_count(cps@.len(), f as nat));
        assert(stream@ =~= stream_header(f as nat, nonce@) + stream_frames(sk_f, nonce@, primes@, aad@, cps@, f as nat, chunk_idx as nat) + sentinel(sk_f, nonce@, aad@, chunk_idx as nat, cps@.len()));
        assert(stream@ == stream_ct(primes@, sk@, nonce@, aad@, plaintext@, f as nat));
    }
    Ok(stream)
}

/// Streaming encryption under a fresh random nonce.
pub fn encrypt_stream_ae_v8(
    plaintext: &str,
    primes: &[u64],
    sk: &[u8; SK_SIZE],
    aad: &[u8],
    frame_codepoints: u32,
) -> (r: Result<Vec<u8>, String>)
    requires
        frame_codepoints >= 1 ==> chunk_count(plaintext@.len(), frame_codepoints as nat)
            <= 0xFFFF_FFFF,
    ensures
        match r {
            Ok(ct) => ct@.len() >= 21 && encrypt_stream_spec(
                primes@,
                sk@,
                ct@.subrange(5, 21),
                aad@,
                plaintext@,
                frame_codepoints as nat,
            ) == Ok::<Seq<u8>, Seq<char>>(ct@),
            Err(e) => encrypt_stream_spec(
                primes@,
                sk@,
                seq![],
                aad@,
                plaintext@,
                frame_codepoints as nat,
            ) == Err::<Seq<u8>, Seq<char>>(e@),
        },
{
    let nonce = generate_nonce();
    let r = encrypt_stream_ae_v8_with_nonce(plaintext, primes, sk, &nonce, aad, frame_codepoints);
    proof {
        if r is Ok {
            let ct = r->Ok_0@;
            lemma_be_encode_len(frame_codepoints as nat, 4);
            assert(ct.subrange(5, 21) =~= nonce@) by {
                let sk_fmt = format_subkey(sk@, FORMAT_STREAM_AE_V8);
                let cps = cps_of(plaintext@);
                let c = chunk_count(cps.len(), frame_codepoints as nat);
                assert(ct == stream_header(frame_codepoints as nat, nonce@) + stream_frames(
                    sk_fmt,
                    nonce@,
                    primes@,
                    aad@,
                    cps,
                    frame_codepoints as nat,
                    c,
                ) + sentinel(sk_fmt, nonce@, aad@, c, cps.len()));
            }
        }
    }
    r
}


// ---------------------------------------------------------------------------
// Chunk-at-a-time encryption
// ---------------------------------------------------------------------------

/// `part` completed to `f` code points with the filler of chunk `j`.
fn complete_chunk(part: &mut Vec<u32>, f: usize, j: u32, sk_fmt: &[u8; 32], nonce: &[u8; 16])
    requires
        old(part)@.len() <= f <= STREAM_AE_V8_MAX_FRAME,
    ensures
        final(part)@ == old(part)@ + Seq::new(
            (f - old(part)@.len()) as nat,
            |q: int| pad_cp(sk_fmt@, sub_nonce_spec(sk_fmt@, nonce@, j as nat), q as nat) as u32,
        ),
{
    let sub = derive_stream_v8_sub_nonce(sk_fmt, nonce, j);
    let fill_needed = f - part.len();
    let mut t: usize = 0;
    while t < fill_needed
        invariant
            t <= fill_needed <= f <= STREAM_AE_V8_MAX_FRAME,
            fill_needed == f - old(part)@.len(),
            sub@ == sub_nonce_spec(sk_fmt@, nonce@, j as nat),
            part@ == old(part)@ + Seq::new(t as nat, |q: int| pad_cp(sk_fmt@, sub@, q as nat) as u32),
        decreases fill_needed - t,
    {
        let c = derive_stream_v8_filler_cp(sk_fmt, &sub, t as u32);
        part.push(c);
        proof {
            assert(Seq::new((t + 1) as nat, |q: int| pad_cp(sk_fmt@, sub@, q as nat) as u32)
                =~= Seq::new(t as nat, |q: int| pad_cp(sk_fmt@, sub@, q as nat) as u32).push(c));
        }
        t = t + 1;
    }
}

/// The frames of complete chunks do not change when the message grows.
proof fn lemma_frames_extend(
    sk_fmt: Seq<u8>,
    nonce: Seq<u8>,
    primes: Seq<u64>,
    aad: Seq<u8>,
    cps: Seq<u32>,
    more: Seq<u32>,
    f: nat,
    n: nat,
)
    requires
        f >= 1,
        cps.len() <= more.len(),
        more.subrange(0, cps.len() as int) == cps,
        n * f <= cps.len(),
    ensures
        stream_frames(sk_fmt, nonce, primes, aad, more, f, n) == stream_frames(
            sk_fmt,
            nonce,
            primes,
            aad,
            cps,
            f,
            n,
        ),
    decreases n,
{
    if n > 0 {
        let m = (n - 1) as nat;
        assert(n * f == m * f + f) by (nonlinear_arith)
            requires
                n == m + 1,
        ;
        lemma_frames_extend(sk_fmt, nonce, primes, aad, cps, more, f, m);
        assert(more.subrange((m * f) as int, (n * f) as int) =~= cps.subrange(
            (m * f) as int,
            (n * f) as int,
        )) by {
            assert forall|k: int| 0 <= k < cps.len() implies #[trigger] more[k] == cps[k] by {
                assert(more.subrange(0, cps.len() as int)[k] == more[k]);
            }
        }
    }
}

/// One more code point: the complete frames stay, and a chunk that fills up
/// adds its frame.
proof fn lemma_push_step(
    sk_fmt: Seq<u8>,
    nonce: Seq<u8>,
    primes: Seq<u64>,
    aad: Seq<u8>,
    cps0: Seq<u32>,
    c: u32,
    f: nat,
    idx: nat,
)
    requires
        f >= 1,
        idx * f <= cps0.len() < idx * f + f,
    ensures
        ({
            let cps1 = cps0.push(c);
            &&& stream_frames(sk_fmt, nonce, primes, aad, cps1, f, idx) == stream_frames(
                sk_fmt,
                nonce,
                primes,
                aad,
                cps0,
                f,
                idx,
            )
            &&& cps1.len() == (idx + 1) * f ==> stream_frames(
                sk_fmt,
                nonce,
                primes,
                aad,
                cps1,
                f,
                idx + 1,
            ) == stream_frames(sk_fmt, nonce, primes, aad, cps0, f, idx) + chunk_frame(
                sk_fmt,
                nonce,
                primes,
                aad,
                cps1.subrange((idx * f) as int, cps1.len() as int),
                idx,
            )
            &&& cps1.len() == (idx + 1) * f ==> cps1.len() % f == 0
            &&& cps1.len() < (idx + 1) * f ==> cps1.len() % f != 0
        }),
{
    let cps1 = cps0.push(c);
    assert(cps1.subrange(0, cps0.len() as int) =~= cps0);
    lemma_frames_extend(sk_fmt, nonce, primes, aad, cps0, cps1, f, idx);
    assert((idx + 1) * f == idx * f + f) by (nonlinear_arith);
    if cps1.len() == (idx + 1) * f {
        vstd::arithmetic::div_mod::lemma_fundamental_div_mod_converse(
            cps1.len() as int,
            f as int,
            (idx + 1) as int,
            0,
        );
    } else {
        vstd::arithmetic::div_mod::lemma_fundamental_div_mod_converse(
            cps1.len() as int,
            f as int,
            idx as int,
            cps1.len() - idx * f,
        );
    }
}

/// Chunk-at-a-time encryptor for the v8 streaming format: `new` gives the
/// header, `push` a frame each time `F` code points have come in, and
/// `finish` the last frame and the sentinel. The bytes it hands out are
/// those of `encrypt_stream_ae_v8_with_nonce` under the same nonce.
pub struct StreamV8Encryptor {
    primes: Vec<u64>,
    sk: Ghost<Seq<u8>>,
    sk_fmt: [u8; 32],
    aad: Vec<u8>,
    nonce: [u8; 16],
    f: u32,
    chunk_idx: u32,
    total_real_cps: u64,
    cp_buf: Vec<u32>,
    pushed: Ghost<Seq<char>>,
    emitted: Ghost<Seq<u8>>,
}

impl StreamV8Encryptor {
    /// The primes it encrypts under.
    pub closed spec fn primes(&self) -> Seq<u64> {
        self.primes@
    }

    /// The secret key it encrypts under.
    pub closed spec fn sk(&self) -> Seq<u8> {
        self.sk@
    }

    /// The associated data bound into every tag.
    pub closed spec fn aad(&self) -> Seq<u8> {
        self.aad@
    }

    /// The stream nonce.
    pub closed spec fn nonce(&self) -> Seq<u8> {
        self.nonce@
    }

    /// Code points per chunk.
    pub closed spec fn frame(&self) -> nat {
        self.f as nat
    }

    /// The characters pushed so far.
    pub closed spec fn pushed(&self) -> Seq<char> {
        self.pushed@
    }

    /// The bytes handed out so far: header and complete frames.
    pub closed spec fn emitted(&self) -> Seq<u8> {
        self.emitted@
    }

    /// Well-formedness: what the fields hold of the pushed characters and
    /// the bytes handed out.
    pub closed spec fn wf(&self) -> bool {
        let cps = cps_of(self.pushed@);
        let f = self.f as nat;
        &&& valid_key(self.primes@)
        &&& 1 <= self.f <= STREAM_AE_V8_MAX_FRAME
        &&& self.sk_fmt@ == format_subkey(self.sk@, FORMAT_STREAM_AE_V8)
        &&& cps.len() == self.total_real_cps
        &&& self.chunk_idx * f + self.cp_buf@.len() == cps.len()
        &&& self.cp_buf@.len() < f
        &&& self.cp_buf@ == cps.subrange((self.chunk_idx * f) as int, cps.len() as int)
        &&& self.emitted@ == stream_header(f, self.nonce@) + stream_frames(
            self.sk_fmt@,
            self.nonce@,
            self.primes@,
            self.aad@,
            cps,
            f,
            self.chunk_idx as nat,
        )
    }

    /// A new encryptor under a fresh random nonce, with the 21-byte header.
    pub fn new(primes: &[u64], sk: &[u8; SK_SIZE], aad: &[u8], frame_codepoints: u32) -> (r: Result<
        (Self, Vec<u8>),
        String,
    >)
        ensures
            match r {
                Ok((enc, header)) => {
                    &&& enc.wf()
                    &&& valid_key(primes@)
                    &&& 1 <= frame_codepoints <= STREAM_AE_V8_MAX_FRAME
                    &&& enc.primes() == primes@
                    &&& enc.sk() == sk@
                    &&& enc.aad() == aad@
                    &&& enc.frame() == frame_codepoints
                    &&& enc.nonce().len() == 16
                    &&& enc.pushed() == Seq::<char>::empty()
                    &&& header@ == stream_header(frame_codepoints as nat, enc.nonce())
                    &&& enc.emitted() == header@
                },
                Err(e) => match key_check(primes@) {
                    Err(k) => e@ == k,
                    Ok(_) => !(1 <= frame_codepoints <= STREAM_AE_V8_MAX_FRAME) && e@
                        == msg_bad_frame_size(frame_codepoints as nat),
                },
            },
    {
        match validate_key(primes) {
            Err(e) => {
                return Err(e);
            },
            Ok(()) => {},
        }
        match validate_stream_v8_frame(frame_codepoints) {
            Err(e) => {
                return Err(e);
            },
            Ok(()) => {},
        }
        let nonce = generate_nonce();
        let sk_fmt = derive_format_subkey(sk, FORMAT_STREAM_AE_V8);
        let mut header: Vec<u8> = Vec::new();
        header.push(FORMAT_STREAM_AE_V8);
        let fb = be_bytes(frame_codepoints as u64, 4);
        append_bytes(&mut header, fb.as_slice());
        append_bytes(&mut header, &nonce);
        let pv = crate::primes::copy_primes(primes);
        let av = crate::bytes::bytes_to_vec(aad);
        proof {
            assert(header@ =~= stream_header(frame_codepoints as nat, nonce@));
            assert(cps_of(Seq::<char>::empty()) =~= Seq::<u32>::empty());
            assert(0 * (frame_codepoints as nat) == 0);
            assert(header@ + Seq::<u8>::empty() =~= header@);
            assert(Seq::<u32>::empty().subrange(0, 0) =~= Seq::<u32>::empty());
        }
        let enc = StreamV8Encryptor {
            primes: pv,
            sk: Ghost(sk@),
            sk_fmt,
            aad: av,
            nonce,
            f: frame_codepoints,
            chunk_idx: 0,
            total_real_cps: 0,
            cp_buf: Vec::new(),
            pushed: Ghost(Seq::empty()),
            emitted: Ghost(header@),
        };
        Ok((enc, header))
    }

    /// Feeds one character; hands out a frame when it completes a chunk.
    pub fn push(&mut self, ch: char) -> (r: Result<Option<Vec<u8>>, String>)
        requires
            old(self).wf(),
            (old(self).pushed().len() + 1) / old(self).frame() <= 0xFFFF_FFFF,
        ensures
            final(self).wf(),
            final(self).primes() == old(self).primes(),
            final(self).sk() == old(self).sk(),
            final(self).aad() == old(self).aad(),
            final(self).nonce() == old(self).nonce(),
            final(self).frame() == old(self).frame(),
            final(self).pushed() == old(self).pushed().push(ch),
            r is Ok,
            match r {
                Ok(Some(frame)) => {
                    &&& final(self).emitted() == old(self).emitted() + frame@
                    &&& final(self).pushed().len() % final(self).frame() == 0
                    &&& frame@.len() == 36 + 160 * final(self).frame()
                    &&& frame@.subrange(0, 4) == be_encode(160 * final(self).frame(), 4)
                },
                Ok(None) => {
                    &&& final(self).emitted() == old(self).emitted()
                    &&& final(self).pushed().len() % final(self).frame() != 0
                },
                Err(_) => false,
            },
    {
        let ghost cps0 = cps_of(self.pushed@);
        let ghost cps1 = cps_of(self.pushed@.push(ch));
        let ghost f = self.f as nat;
        let ghost idx = self.chunk_idx as nat;
        proof {
            assert(cps1 =~= cps0.push(ch as u32));
            lemma_push_step(
                self.sk_fmt@,
                self.nonce@,
                self.primes@,
                self.aad@,
                cps0,
                ch as u32,
                f,
                idx,
            );
        }
        proof {
            let n1 = self.pushed@.len() + 1;
            assert(n1 < 0x1_0000_0000 * f) by (nonlinear_arith)
                requires
                    n1 / f <= 0xFFFF_FFFF,
                    f >= 1,
            {
                vstd::arithmetic::div_mod::lemma_fundamental_div_mod(n1 as int, f as int);
            }
            assert(0x1_0000_0000 * f <= 0x1_0000_0000 * STREAM_AE_V8_MAX_FRAME) by (nonlinear_arith)
                requires
                    f <= STREAM_AE_V8_MAX_FRAME,
            ;
            lemma_cps_of(self.pushed@);
        }
        let mut buf = Vec::new();
        std::mem::swap(&mut buf, &mut self.cp_buf);
        buf.push(ch as u32);
        self.total_real_cps = self.total_real_cps + 1;
        self.pushed = Ghost(self.pushed@.push(ch));
        if buf.len() >= self.f as usize {
            let frame = emit_stream_v8_chunk(
                buf.as_slice(),
                self.chunk_idx,
                self.primes.as_slice(),
                &self.sk_fmt,
                &self.nonce,
                self.aad.as_slice(),
            );
            proof {
                assert(buf@ =~= cps1.subrange((idx * f) as int, cps1.len() as int));
                assert(self.cp_buf@ =~= cps1.subrange(cps1.len() as int, cps1.len() as int));
                assert(idx <= idx * f) by (nonlinear_arith)
                    requires
                        f >= 1,
                ;
                assert((idx + 1) * f == idx * f + f) by (nonlinear_arith);
                assert(cps1.len() == (idx + 1) * f);
                assert(((idx + 1) * f) / f == idx + 1) by (nonlinear_arith)
                    requires
                        f >= 1,
                ;
                assert(self.emitted@ + frame@ =~= stream_header(f, self.nonce@) + stream_frames(
                    self.sk_fmt@,
                    self.nonce@,
                    self.primes@,
                    self.aad@,
                    cps1,
                    f,
                    idx + 1,
                ));
            }
            self.chunk_idx = self.chunk_idx + 1;
            self.emitted = Ghost(self.emitted@ + frame@);
            proof {
                assert(self.chunk_idx * f == cps1.len());
            }
            Ok(Some(frame))
        } else {
            proof {
                assert(buf@ =~= cps1.subrange((idx * f) as int, cps1.len() as int));
            }
            proof {
                assert((idx + 1) * f == idx * f + f) by (nonlinear_arith);
            }
            self.cp_buf = buf;
            Ok(None)
        }
    }

    /// The last (filler-completed) frame, if code points are waiting, and
    /// the sentinel. Everything handed out, in order, is the stream of the
    /// pushed characters.
    pub fn finish(self) -> (r: Result<Vec<u8>, String>)
        requires
            self.wf(),
            chunk_count(self.pushed().len(), self.frame()) <= 0xFFFF_FFFF,
        ensures
            match r {
                Ok(out) => {
                    &&& self.emitted() + out@ == stream_ct(
                        self.primes(),
                        self.sk(),
                        self.nonce(),
                        self.aad(),
                        self.pushed(),
                        self.frame(),
                    )
                    &&& out@.len() == 44 + (if self.pushed().len() % self.frame() != 0 {
                        36 + 160 * self.frame()
                    } else {
                        0
                    })
                    &&& out@.subrange(out@.len() - 44, out@.len() - 32) == be_encode(0, 4)
                        + be_encode(self.pushed().len(), 8)
                },
                Err(_) => false,
            },
    {
        let ghost cps = cps_of(self.pushed@);
        let ghost f = self.f as nat;
        let ghost idx = self.chunk_idx as nat;
        let n = self.total_real_cps;
        let mut out: Vec<u8> = Vec::new();
        let mut count = self.chunk_idx;
        proof {
            lemma_chunk_count(cps.len(), f);
        }
        if self.cp_buf.len() > 0 {
            let mut chunk = Vec::new();
            let mut i: usize = 0;
            while i < self.cp_buf.len()
                invariant
                    i <= self.cp_buf@.len(),
                    chunk@ == self.cp_buf@.subrange(0, i as int),
                decreases self.cp_buf@.len() - i,
            {
                chunk.push(self.cp_buf[i]);
                proof {
                    assert(self.cp_buf@.subrange(0, i + 1) =~= self.cp_buf@.subrange(
                        0,
                        i as int,
                    ).push(self.cp_buf@[i as int]));
                }
                i = i + 1;
            }
            proof {
                assert(chunk@ =~= self.cp_buf@);
            }
            complete_chunk(&mut chunk, self.f as usize, self.chunk_idx, &self.sk_fmt, &self.nonce);
            proof {
                assert((idx + 1) * f == idx * f + f) by (nonlinear_arith);
                assert(chunk@ =~= chunk_cps(self.sk_fmt@, self.nonce@, cps, f, idx));
                vstd::arithmetic::div_mod::lemma_fundamental_div_mod_converse(
                    cps.len() as int,
                    f as int,
                    idx as int,
                    self.cp_buf@.len() as int,
                );
                assert(idx == chunk_count(cps.len(), f) - 1);
            }
            let frame = emit_stream_v8_chunk(
                chunk.as_slice(),
                self.chunk_idx,
                self.primes.as_slice(),
                &self.sk_fmt,
                &self.nonce,
                self.aad.as_slice(),
            );
            append_bytes(&mut out, frame.as_slice());
            count = self.chunk_idx + 1;
            proof {
                assert(out@.len() == 36 + 160 * f);
            }
        } else {
            proof {
                assert(idx == chunk_count(cps.len(), f)) by {
                    vstd::arithmetic::div_mod::lemma_fundamental_div_mod_converse(
                        cps.len() as int,
                        f as int,
                        idx as int,
                        0,
                    );
                }
            }
        }
        proof {
            lemma_byte_pow_values();
        }
        let tag = compute_stream_v8_sentinel_tag(
            &self.sk_fmt,
            &self.nonce,
            count,
            self.aad.as_slice(),
            n,
        );
        let zb = be_bytes(0, 4);
        let tb = be_bytes(n, 8);
        let ghost pre = out@;
        append_bytes(&mut out, zb.as_slice());
        append_bytes(&mut out, tb.as_slice());
        append_bytes(&mut out, &tag);
        proof {
            lemma_cps_of(self.pushed@);
            lemma_be_encode_len(0, 4);
            lemma_be_encode_len(n as nat, 8);
            assert(out@.subrange(out@.len() - 44, out@.len() - 32) =~= zb@ + tb@);
            vstd::arithmetic::div_mod::lemma_fundamental_div_mod_converse(
                cps.len() as int,
                f as int,
                idx as int,
                self.cp_buf@.len() as int,
            );
            assert(pre.len() == (if self.pushed@.len() % f != 0 {
                36 + 160 * f
            } else {
                0
            }));
            let sk_f = format_subkey(self.sk@, FORMAT_STREAM_AE_V8);
            assert(count as nat == chunk_count(cps.len(), f));
            assert(self.emitted@ + out@ =~= stream_header(f, self.nonce@) + stream_frames(
                sk_f,
                self.nonce@,
                self.primes@,
                self.aad@,
                cps,
                f,
                count as nat,
            ) + sentinel(sk_f, self.nonce@, self.aad@, count as nat, cps.len()));
        }
        Ok(out)
    }
}

// ---------------------------------------------------------------------------
// Decryption
// ---------------------------------------------------------------------------

/// The message of a chunk decoding failure.
pub open spec fn msg_chunk_failure(f: TokenFailure) -> Seq<char> {
    match f {
        TokenFailure::Truncated { .. } => "Truncated v8 stream chunk: token stream ended mid noise-run."@,
        TokenFailure::NotToken { pos, k } => "Malformed v8 stream chunk: token at position "@ + dec(
            pos as nat,
        ) + " is not c * k + addend."@,
        TokenFailure::NotScalar { cp, pos } => "Malformed v8 stream chunk: recovered value "@ + dec(
            cp as nat,
        ) + " is not a Unicode scalar."@,
    }
}

/// Lock-step decoding of the `f` code points of one chunk.
pub open spec fn chunk_decode(
    sk_fmt: Seq<u8>,
    sub: Seq<u8>,
    primes: Seq<u64>,
    tokens: Seq<u64>,
    f: nat,
) -> Result<Seq<u32>, Seq<char>> {
    match dec8(sk_fmt, sub, theta_v8(sk_fmt, sub), primes, tokens, f, 0, 0, seq![]) {
        Ok(v) => Ok(v),
        Err(e) => Err(msg_chunk_failure(e)),
    }
}

/// Recovers the `f` code points of one chunk from its tokens.
pub fn decrypt_v8_stream_chunk_core(
    chunk_tokens: &[u64],
    primes: &[u64],
    sk_fmt: &[u8; 32],
    sub_nonce: &[u8; 16],
    f: u32,
) -> (r: Result<Vec<u32>, String>)
    requires
        valid_key(primes@),
    ensures
        match r {
            Ok(v) => chunk_decode(sk_fmt@, sub_nonce@, primes@, chunk_tokens@, f as nat) == Ok::<
                Seq<u32>,
                Seq<char>,
            >(v@) && all_scalar(v@) && v@.len() == f,
            Err(e) => chunk_decode(sk_fmt@, sub_nonce@, primes@, chunk_tokens@, f as nat) == Err::<
                Seq<u32>,
                Seq<char>,
            >(e@),
        },
{
    proof {
        lemma_valid_key_tokens(primes@);
    }
    let theta = derive_noise_threshold_v8(sk_fmt, sub_nonce);
    match decode_tokens_v8(sk_fmt, sub_nonce, theta, primes, chunk_tokens, f as u64) {
        Ok(v) => {
            proof {
                lemma_dec8_scalar(
                    sk_fmt@,
                    sub_nonce@,
                    theta as nat,
                    primes@,
                    chunk_tokens@,
                    f as nat,
                    0,
                    0,
                    seq![],
                );
                lemma_dec8_len(
                    sk_fmt@,
                    sub_nonce@,
                    theta as nat,
                    primes@,
                    chunk_tokens@,
                    f as nat,
                    0,
                    0,
                    seq![],
                );
            }
            Ok(v)
        },
        Err(TokenFailure::Truncated { .. }) => Err(
            String::from_str("Truncated v8 stream chunk: token stream ended mid noise-run."),
        ),
        Err(TokenFailure::NotToken { pos, k }) => {
            let mut s = String::from_str("Malformed v8 stream chunk: token at position ");
            push_dec(&mut s, pos);
            push_str(&mut s, " is not c * k + addend.");
            Err(s)
        },
        Err(TokenFailure::NotScalar { cp, pos }) => {
            let mut s = String::from_str("Malformed v8 stream chunk: recovered value ");
            push_dec(&mut s, cp);
            push_str(&mut s, " is not a Unicode scalar.");
            Err(s)
        },
    }
}

pub open spec fn msg_stream_short(len: nat) -> Seq<char> {
    "Stream truncated: need at least 21 header bytes, got "@ + dec(len)
}

pub open spec fn msg_format_id(b: u8) -> Seq<char> {
    "Unexpected format id 0x"@ + hex2(b as nat) + "; expected 0x02 (FORMAT_STREAM_AE_V8)"@
}

pub open spec fn msg_header_frame(f: nat) -> Seq<char> {
    "Malformed v8 stream header: frame_codepoints F="@ + dec(f) + " out of [1, 16384]."@
}

pub open spec fn msg_need_prefix() -> Seq<char> {
    "Stream truncated: need 4-byte chunk length prefix."@
}

pub open spec fn msg_need_sentinel() -> Seq<char> {
    "Stream truncated: need sentinel body."@
}

pub open spec fn msg_sentinel_auth() -> Seq<char> {
    "Authentication failed: invalid v8 stream sentinel tag."@
}

pub open spec fn msg_sentinel_count(total: nat, delivered: nat, pending: nat) -> Seq<char> {
    "Malformed v8 stream sentinel: total_real_codepoints "@ + dec(total)
        + " inconsistent with decoded stream ("@ + dec(delivered) + " delivered + "@ + dec(pending)
        + " pending)."@
}

pub open spec fn msg_trailing(extra: nat) -> Seq<char> {
    "Trailing bytes after sentinel: "@ + dec(extra) + " extra bytes."@
}

pub open spec fn msg_frame_len(len: nat, f: nat) -> Seq<char> {
    "Malformed v8 stream frame: chunk length "@ + dec(len) + " does not match the fixed frame size "@
        + dec(f * 160) + " (= F*8*20 for F="@ + dec(f) + ")."@
}

pub open spec fn msg_mid_frame() -> Seq<char> {
    "Stream truncated mid-frame."@
}

/// The refusal of a stream with more chunk frames than a 32-bit chunk
/// counter can number.
pub open spec fn msg_too_many_frames() -> Seq<char> {
    "Malformed v8 stream: more than 4294967295 chunk frames."@
}

pub open spec fn msg_chunk_auth(idx: nat) -> Seq<char> {
    "Authentication failed: invalid tag on v8 stream chunk "@ + dec(idx) + "."@
}

/// Number of code points held back in the last decoded chunk.
pub open spec fn pending_len(pending: Option<Seq<u32>>) -> nat {
    match pending {
        Some(p) => p.len(),
        None => 0,
    }
}

/// What a sentinel claiming `total` code points makes of the decoded
/// chunks: the delivered code points and as much of the last chunk as the
/// count reaches; any other count is refused.
pub open spec fn sentinel_outcome(total: nat, delivered: Seq<u32>, pending: Option<Seq<u32>>) -> Result<
    Seq<u32>,
    Seq<char>,
> {
    let dl = delivered.len();
    let pl = pending_len(pending);
    if total > dl + pl || total < dl || (pending is None && total != dl) {
        Err(msg_sentinel_count(total, dl, pl))
    } else {
        match pending {
            Some(p) => Ok(delivered + p.subrange(0, total - dl)),
            None => Ok(delivered),
        }
    }
}

/// The stream decoder from byte `pos`, after `idx` chunks, with `delivered`
/// code points released and the last chunk's code points `pending`.
pub open spec fn dec_stream(
    sk_fmt: Seq<u8>,
    nonce: Seq<u8>,
    primes: Seq<u64>,
    aad: Seq<u8>,
    s: Seq<u8>,
    f: nat,
    pos: nat,
    idx: nat,
    delivered: Seq<u32>,
    pending: Option<Seq<u32>>,
) -> Result<Seq<char>, Seq<char>>
    decreases s.len() - pos,
{
    if s.len() < pos + 4 {
        Err(msg_need_prefix())
    } else {
        let cl = be_value(s.subrange(pos as int, (pos + 4) as int));
        let p = pos + 4;
        if cl == 0 {
            if s.len() < p + 40 {
                Err(msg_need_sentinel())
            } else {
                let total = be_value(s.subrange(p as int, (p + 8) as int));
                if s.subrange((p + 8) as int, (p + 40) as int) != sentinel_tag_spec(sk_fmt, nonce, idx, aad, total) {
                    Err(msg_sentinel_auth())
                } else {
                    match sentinel_outcome(total, delivered, pending) {
                        Err(e) => Err(e),
                        Ok(out) => if p + 40 != s.len() {
                            Err(msg_trailing((s.len() - (p + 40)) as nat))
                        } else {
                            Ok(chars_of(out))
                        },
                    }
                }
            }
        } else if cl != f * 160 {
            Err(msg_frame_len(cl, f))
        } else if s.len() < p + cl + 32 {
            Err(msg_mid_frame())
        } else {
            let masked = s.subrange(p as int, (p + cl) as int);
            if s.subrange((p + cl) as int, (p + cl + 32) as int) != chunk_tag_spec(sk_fmt, nonce, idx, aad, masked) {
                Err(msg_chunk_auth(idx))
            } else {
                let sub = sub_nonce_spec(sk_fmt, nonce, idx);
                let blob = xor_seq(masked, keystream_spec(sk_fmt, sub, cl));
                match fixed_decode(blob) {
                    Err(e) => Err(e),
                    Ok(tokens) => match chunk_decode(sk_fmt, sub, primes, tokens, f) {
                        Err(e) => Err(e),
                        Ok(cps) => if idx >= 0xFFFF_FFFF {
                            Err(msg_too_many_frames())
                        } else {
                            dec_stream(
                            sk_fmt,
                            nonce,
                            primes,
                            aad,
                            s,
                            f,
                            p + cl + 32,
                            idx + 1,
                            match pending {
                                Some(q) => delivered + q,
                                None => delivered,
                            },
                            Some(cps),
                        )
                        },
                    },
                }
            }
        }
    }
}

/// Streaming decryption: key check, header checks, then the chunks up to
/// the sentinel.
pub open spec fn decrypt_stream_spec(primes: Seq<u64>, sk: Seq<u8>, aad: Seq<u8>, s: Seq<u8>) -> Result<
    Seq<char>,
    Seq<char>,
> {
    match key_check(primes) {
        Err(e) => Err(e),
        Ok(_) => if s.len() < 21 {
            Err(msg_stream_short(s.len()))
        } else if s[0] != FORMAT_STREAM_AE_V8 {
            Err(msg_format_id(s[0]))
        } else {
            let f = be_value(s.subrange(1, 5));
            if f < 1 || f > STREAM_AE_V8_MAX_FRAME {
                Err(msg_header_frame(f))
            } else {
                dec_stream(
                    format_subkey(sk, FORMAT_STREAM_AE_V8),
                    s.subrange(5, 21),
                    primes,
                    aad,
                    s,
                    f,
                    21,
                    0,
                    seq![],
                    None,
                )
            }
        }
    }
}

pub open spec fn opt_view(p: Option<Vec<u32>>) -> Option<Seq<u32>> {
    match p {
        Some(v) => Some(v@),
        None => None,
    }
}

fn sentinel_count_message(total: u64, delivered: u64, pending: u64) -> (s: String)
    ensures
        s@ == msg_sentinel_count(total as nat, delivered as nat, pending as nat),
{
    let mut s = String::from_str("Malformed v8 stream sentinel: total_real_codepoints ");
    push_dec(&mut s, total);
    push_str(&mut s, " inconsistent with decoded stream (");
    push_dec(&mut s, delivered);
    push_str(&mut s, " delivered + ");
    push_dec(&mut s, pending);
    push_str(&mut s, " pending).");
    s
}

fn frame_len_message(len: u64, f: u32) -> (s: String)
    requires
        f <= STREAM_AE_V8_MAX_FRAME,
    ensures
        s@ == msg_frame_len(len as nat, f as nat),
{
    let mut s = String::from_str("Malformed v8 stream frame: chunk length ");
    push_dec(&mut s, len);
    push_str(&mut s, " does not match the fixed frame size ");
    push_dec(&mut s, (f as u64) * 160);
    push_str(&mut s, " (= F*8*20 for F=");
    push_dec(&mut s, f as u64);
    push_str(&mut s, ").");
    s
}

/// The sentinel at `pos` (just after its zero length prefix).
fn open_sentinel(
    sk_fmt: &[u8; 32],
    nonce: &[u8; 16],
    aad: &[u8],
    stream: &[u8],
    pos: usize,
    chunk_idx: u32,
    delivered: Vec<u32>,
    pending: Option<Vec<u32>>,
) -> (r: Result<String, String>)
    requires
        pos <= stream@.len(),
        delivered@.len() + pending_len(opt_view(pending)) <= pos,
        all_scalar(delivered@),
        match pending {
            Some(p) => all_scalar(p@),
            None => true,
        },
    ensures
        string_result(r) == ({
            let s = stream@;
            let p = pos as nat;
            if s.len() < p + 40 {
                Err(msg_need_sentinel())
            } else {
                let total = be_value(s.subrange(p as int, (p + 8) as int));
                if s.subrange((p + 8) as int, (p + 40) as int) != sentinel_tag_spec(
                    sk_fmt@,
                    nonce@,
                    chunk_idx as nat,
                    aad@,
                    total,
                ) {
                    Err(msg_sentinel_auth())
                } else {
                    match sentinel_outcome(total, delivered@, opt_view(pending)) {
                        Err(e) => Err(e),
                        Ok(out) => if p + 40 != s.len() {
                            Err(msg_trailing((s.len() - (p + 40)) as nat))
                        } else {
                            Ok(chars_of(out))
                        },
                    }
                }
            }
        }),
{
    let n = stream.len();
    if n - pos < 40 {
        return Err(String::from_str("Stream truncated: need sentinel body."));
    }
    let total = be_read(&stream[pos..pos + 8]);
    let calc = compute_stream_v8_sentinel_tag(sk_fmt, nonce, chunk_idx, aad, total);
    if !ct_eq_bytes(&stream[pos + 8..pos + 40], &calc) {
        return Err(String::from_str("Authentication failed: invalid v8 stream sentinel tag."));
    }
    let end = pos + 40;
    let mut delivered = delivered;
    let dl = delivered.len() as u64;
    let pl: u64 = match &pending {
        Some(p) => p.len() as u64,
        None => 0,
    };
    if total > dl + pl || total < dl || (pending.is_none() && total != dl) {
        return Err(sentinel_count_message(total, dl, pl));
    }
    let ghost d0 = delivered@;
    match pending {
        Some(mut p) => {
            let keep = (total - dl) as usize;
            p.truncate(keep);
            delivered.append(&mut p);
        },
        None => {},
    }
    proof {
        assert(all_scalar(delivered@)) by {
            assert forall|i: int| 0 <= i < delivered@.len() implies is_scalar(
                #[trigger] delivered@[i] as nat,
            ) by {
                if i >= d0.len() {
                    assert(delivered@[i] == opt_view(pending)->Some_0[i - d0.len()]);
                }
            }
        }
    }
    if end != n {
        let mut s = String::from_str("Trailing bytes after sentinel: ");
        push_dec(&mut s, (n - end) as u64);
        push_str(&mut s, " extra bytes.");
        return Err(s);
    }
    Ok(string_of_scalars(delivered.as_slice()))
}

/// The chunks and the sentinel after the header.
fn decrypt_stream_body(
    sk_fmt: &[u8; 32],
    nonce: &[u8; 16],
    primes: &[u64],
    aad: &[u8],
    stream: &[u8],
    f: u32,
) -> (r: Result<String, String>)
    requires
        valid_key(primes@),
        1 <= f <= STREAM_AE_V8_MAX_FRAME,
        21 <= stream@.len(),
    ensures
        string_result(r) == dec_stream(
            sk_fmt@,
            nonce@,
            primes@,
            aad@,
            stream@,
            f as nat,
            21,
            0,
            seq![],
            None,
        ),
{
    let n = stream.len();
    let expected: usize = (f as usize) * 160;
    let mut pos: usize = 21;
    let mut chunk_idx: u32 = 0;
    let mut delivered: Vec<u32> = Vec::new();
    let mut pending: Option<Vec<u32>> = None;
    loop
        invariant
            valid_key(primes@),
            1 <= f <= STREAM_AE_V8_MAX_FRAME,
            n == stream@.len(),
            expected == f * 160,
            21 <= pos <= n,
            delivered@.len() + pending_len(opt_view(pending)) <= pos,
            all_scalar(delivered@),
            match pending {
                Some(p) => all_scalar(p@),
                None => true,
            },
            dec_stream(
                sk_fmt@,
                nonce@,
                primes@,
                aad@,
                stream@,
                f as nat,
                pos as nat,
                chunk_idx as nat,
                delivered@,
                opt_view(pending),
            ) == dec_stream(sk_fmt@, nonce@, primes@, aad@, stream@, f as nat, 21, 0, seq![], None),
        decreases n - pos,
    {
        if n - pos < 4 {
            return Err(String::from_str("Stream truncated: need 4-byte chunk length prefix."));
        }
        let chunk_len = be_read(&stream[pos..pos + 4]);
        let p = pos + 4;
        if chunk_len == 0 {
            return open_sentinel(sk_fmt, nonce, aad, stream, p, chunk_idx, delivered, pending);
        }
        if chunk_len != expected as u64 {
            return Err(frame_len_message(chunk_len, f));
        }
        let cl = expected;
        if n - p < cl + 32 {
            return Err(String::from_str("Stream truncated mid-frame."));
        }
        let masked = &stream[p..p + cl];
        let calc = compute_stream_v8_chunk_tag(sk_fmt, nonce, chunk_idx, aad, masked);
        if !ct_eq_bytes(&stream[p + cl..p + cl + 32], &calc) {
            let mut s = String::from_str("Authentication failed: invalid tag on v8 stream chunk ");
            push_dec(&mut s, chunk_idx as u64);
            push_str(&mut s, ".");
            return Err(s);
        }
        let sub = derive_stream_v8_sub_nonce(sk_fmt, nonce, chunk_idx);
        let ks = varint_keystream(sk_fmt, &sub, cl);
        proof {
            lemma_keystream_len(sk_fmt@, sub@, cl as nat);
        }
        let blob = xor_bytes(masked, ks.as_slice());
        let tokens = match fixed_decode_tokens(blob.as_slice()) {
            Ok(t) => t,
            Err(e) => {
                return Err(e);
            },
        };
        let cps = match decrypt_v8_stream_chunk_core(tokens.as_slice(), primes, sk_fmt, &sub, f) {
            Ok(c) => c,
            Err(e) => {
                return Err(e);
            },
        };
        if chunk_idx == u32::MAX {
            return Err(String::from_str("Malformed v8 stream: more than 4294967295 chunk frames."));
        }
        match pending {
            Some(mut q) => {
                delivered.append(&mut q);
            },
            None => {},
        }
        pending = Some(cps);
        pos = p + cl + 32;
        chunk_idx = chunk_idx + 1;
    }
}

/// v8 streaming decryption of a whole stream. Every chunk tag is checked
/// before its code points are used; the sentinel binds the chunk count and
/// the code point count, which strips the filler of the last chunk.
pub fn decrypt_stream_ae_v8(stream: &[u8], primes: &[u64], sk: &[u8; SK_SIZE], aad: &[u8]) -> (r:
    Result<String, String>)
    ensures
        string_result(r) == decrypt_stream_spec(primes@, sk@, aad@, stream@),
{
    match validate_key(primes) {
        Err(e) => {
            return Err(e);
        },
        Ok(()) => {},
    }
    let sk_fmt = derive_format_subkey(sk, FORMAT_STREAM_AE_V8);
    if stream.len() < 21 {
        let mut s = String::from_str("Stream truncated: need at least 21 header bytes, got ");
        push_dec(&mut s, stream.len() as u64);
        return Err(s);
    }
    if stream[0] != FORMAT_STREAM_AE_V8 {
        let mut s = String::from_str("Unexpected format id 0x");
        push_hex2(&mut s, stream[0]);
        push_str(&mut s, "; expected 0x02 (FORMAT_STREAM_AE_V8)");
        return Err(s);
    }
    let frame = be_read(&stream[1..5]);
    proof {
        lemma_be_value_bound(stream@.subrange(1, 5));
        lemma_byte_pow_values();
    }
    if frame < 1 || frame > STREAM_AE_V8_MAX_FRAME as u64 {
        let mut s = String::from_str("Malformed v8 stream header: frame_codepoints F=");
        push_dec(&mut s, frame);
        push_str(&mut s, " out of [1, 16384].");
        return Err(s);
    }
    let mut nonce = [0u8; 16];
    let mut i: usize = 0;
    while i < 16
        invariant
            i <= 16,
            stream@.len() >= 21,
            forall|j: int| 0 <= j < i ==> nonce@[j] == stream@[5 + j],
        decreases 16 - i,
    {
        nonce[i] = stream[5 + i];
        i = i + 1;
    }
    proof {
        assert(nonce@ =~= stream@.subrange(5, 21));
    }
    decrypt_stream_body(&sk_fmt, &nonce, primes, aad, stream, frame as u32)
}

// ---------------------------------------------------------------------------
// Decryption inverts encryption
// ---------------------------------------------------------------------------

/// Length of one frame for `f` code points per chunk.
pub open spec fn frame_len(f: nat) -> nat {
    160 * f + 36
}

proof fn lemma_chunk_frame_len(
    sk_fmt: Seq<u8>,
    nonce: Seq<u8>,
    primes: Seq<u64>,
    aad: Seq<u8>,
    chunk: Seq<u32>,
    idx: nat,
)
    ensures
        chunk_masked(sk_fmt, sub_nonce_spec(sk_fmt, nonce, idx), primes, chunk).len() == 160
            * chunk.len(),
        chunk_frame(sk_fmt, nonce, primes, aad, chunk, idx).len() == frame_len(chunk.len()),
        chunk_frame(sk_fmt, nonce, primes, aad, chunk, idx).subrange(0, 4) == be_encode(
            160 * chunk.len(),
            4,
        ),
{
    reveal(chunk_frame);
    let sub = sub_nonce_spec(sk_fmt, nonce, idx);
    let toks = tokens8(sk_fmt, sub, theta_v8(sk_fmt, sub), primes, chunk);
    lemma_tokens8_len(sk_fmt, sub, theta_v8(sk_fmt, sub), primes, chunk);
    lemma_fixed_encode_len(toks);
    let blob = fixed_encode(toks);
    lemma_keystream_len(sk_fmt, sub, blob.len());
    let masked = chunk_masked(sk_fmt, sub, primes, chunk);
    lemma_be_encode_len(masked.len(), 4);
    assert(chunk_frame(sk_fmt, nonce, primes, aad, chunk, idx).subrange(0, 4) =~= be_encode(
        masked.len(),
        4,
    ));
}

/// Chunk `j` of a message holds `f` scalar values; its first code points
/// are those of the message from `j * f` on.
proof fn lemma_chunk_cps_shape(sk_fmt: Seq<u8>, nonce: Seq<u8>, cps: Seq<u32>, f: nat, j: nat)
    requires
        f >= 1,
        j * f < cps.len(),
    ensures
        chunk_cps(sk_fmt, nonce, cps, f, j).len() == f,
        all_scalar(cps) ==> all_scalar(chunk_cps(sk_fmt, nonce, cps, f, j)),
        (j + 1) * f <= cps.len() ==> chunk_cps(sk_fmt, nonce, cps, f, j) == cps.subrange(
            (j * f) as int,
            ((j + 1) * f) as int,
        ),
        (j + 1) * f > cps.len() ==> chunk_cps(sk_fmt, nonce, cps, f, j).subrange(
            0,
            cps.len() - j * f,
        ) == cps.subrange((j * f) as int, cps.len() as int),
{
    assert((j + 1) * f == j * f + f) by (nonlinear_arith);
    let c = chunk_cps(sk_fmt, nonce, cps, f, j);
    if (j + 1) * f <= cps.len() {
        assert forall|i: int| all_scalar(cps) && 0 <= i < c.len() implies is_scalar(
            #[trigger] c[i] as nat,
        ) by {
            assert(c[i] == cps[j * f + i]);
        }
    } else {
        let sub = sub_nonce_spec(sk_fmt, nonce, j);
        assert forall|i: int| all_scalar(cps) && 0 <= i < c.len() implies is_scalar(
            #[trigger] c[i] as nat,
        ) by {
            if i < cps.len() - j * f {
                assert(c[i] == cps[j * f + i]);
            } else {
                let t = i - (cps.len() - j * f);
                assert(c[i] == pad_cp(sk_fmt, sub, t as nat) as u32);
                assert(pad_cp(sk_fmt, sub, t as nat) <= 126);
            }
        }
        assert(c.subrange(0, cps.len() - j * f) =~= cps.subrange((j * f) as int, cps.len() as int));
    }
}

/// The frames of the first `n` chunks: their length, and the first `j` of
/// them are the frames of the first `j` chunks.
proof fn lemma_frames_prefix(
    sk_fmt: Seq<u8>,
    nonce: Seq<u8>,
    primes: Seq<u64>,
    aad: Seq<u8>,
    cps: Seq<u32>,
    f: nat,
    n: nat,
    j: nat,
)
    requires
        f >= 1,
        n <= chunk_count(cps.len(), f),
        j <= n,
    ensures
        stream_frames(sk_fmt, nonce, primes, aad, cps, f, n).len() == n * frame_len(f),
        stream_frames(sk_fmt, nonce, primes, aad, cps, f, n).subrange(0, (j * frame_len(f)) as int)
            == stream_frames(sk_fmt, nonce, primes, aad, cps, f, j),
    decreases n,
{
    let l = frame_len(f);
    if n > 0 {
        let m = (n - 1) as nat;
        lemma_chunk_start(m, cps.len(), f);
        lemma_chunk_cps_shape(sk_fmt, nonce, cps, f, m);
        lemma_chunk_frame_len(sk_fmt, nonce, primes, aad, chunk_cps(sk_fmt, nonce, cps, f, m), m);
        let prev = stream_frames(sk_fmt, nonce, primes, aad, cps, f, m);
        assert(n * l == m * l + l) by (nonlinear_arith)
            requires
                n == m + 1,
        ;
        if j == n {
            lemma_frames_prefix(sk_fmt, nonce, primes, aad, cps, f, m, m);
            assert(stream_frames(sk_fmt, nonce, primes, aad, cps, f, n).subrange(0, (j * l) as int)
                =~= stream_frames(sk_fmt, nonce, primes, aad, cps, f, j));
        } else {
            lemma_frames_prefix(sk_fmt, nonce, primes, aad, cps, f, m, j);
            assert(j * l <= m * l) by (nonlinear_arith)
                requires
                    j <= m,
            ;
            assert(stream_frames(sk_fmt, nonce, primes, aad, cps, f, n).subrange(0, (j * l) as int)
                =~= prev.subrange(0, (j * l) as int));
        }
    } else {
        assert(j == 0);
        assert(j * l == 0 && n * l == 0) by (nonlinear_arith)
            requires
                j == 0,
                n == 0,
        ;
        assert(stream_frames(sk_fmt, nonce, primes, aad, cps, f, n).subrange(0, (j * l) as int)
            =~= Seq::<u8>::empty());
    }
}

/// A well-formed frame at `pos` decodes to its chunk.
#[verifier::spinoff_prover]
#[verifier::rlimit(100)]
proof fn lemma_frame_decodes(
    sk_fmt: Seq<u8>,
    nonce: Seq<u8>,
    primes: Seq<u64>,
    aad: Seq<u8>,
    s: Seq<u8>,
    f: nat,
    pos: nat,
    idx: nat,
    chunk: Seq<u32>,
    delivered: Seq<u32>,
    pending: Option<Seq<u32>>,
)
    requires
        1 <= f <= STREAM_AE_V8_MAX_FRAME,
        token_primes(primes),
        chunk.len() == f,
        all_scalar(chunk),
        idx < 0xFFFF_FFFF,
        pos + frame_len(f) <= s.len(),
        s.subrange(pos as int, (pos + frame_len(f)) as int) == chunk_frame(
            sk_fmt,
            nonce,
            primes,
            aad,
            chunk,
            idx,
        ),
    ensures
        dec_stream(sk_fmt, nonce, primes, aad, s, f, pos, idx, delivered, pending) == dec_stream(
            sk_fmt,
            nonce,
            primes,
            aad,
            s,
            f,
            pos + frame_len(f),
            idx + 1,
            match pending {
                Some(q) => delivered + q,
                None => delivered,
            },
            Some(chunk),
        ),
{
    reveal(chunk_frame);
    let sub = sub_nonce_spec(sk_fmt, nonce, idx);
    let theta = theta_v8(sk_fmt, sub);
    let toks = tokens8(sk_fmt, sub, theta, primes, chunk);
    let blob = fixed_encode(toks);
    let ks = keystream_spec(sk_fmt, sub, blob.len());
    let masked = chunk_masked(sk_fmt, sub, primes, chunk);
    lemma_chunk_frame_len(sk_fmt, nonce, primes, aad, chunk, idx);
    lemma_tokens8_len(sk_fmt, sub, theta, primes, chunk);
    lemma_fixed_encode_len(toks);
    lemma_keystream_len(sk_fmt, sub, blob.len());
    let cl = masked.len();
    assert(cl == 160 * f);
    let frame = chunk_frame(sk_fmt, nonce, primes, aad, chunk, idx);
    let tag = chunk_tag_spec(sk_fmt, nonce, idx, aad, masked);
    lemma_be_encode_len(cl, 4);
    assert(frame == be_encode(cl, 4) + masked + tag);
    let w = s.subrange(pos as int, (pos + frame_len(f)) as int);
    assert(s.subrange(pos as int, (pos + 4) as int) =~= w.subrange(0, 4));
    assert(w.subrange(0, 4) =~= be_encode(cl, 4));
    lemma_be_value_encode(cl, 4);
    lemma_byte_pow_values();
    assert(be_value(s.subrange(pos as int, (pos + 4) as int)) == cl);
    let p = pos + 4;
    assert(s.subrange(p as int, (p + cl) as int) =~= w.subrange(4, (4 + cl) as int));
    assert(w.subrange(4, (4 + cl) as int) =~= masked);
    assert(s.subrange((p + cl) as int, (p + cl + 32) as int) =~= w.subrange(
        (4 + cl) as int,
        (4 + cl + 32) as int,
    ));
    assert(w.subrange((4 + cl) as int, (4 + cl + 32) as int) =~= tag);
    lemma_xor_involution(blob, ks);
    lemma_fixed_decode_encode(toks);
    lemma_decode_tokens8(sk_fmt, sub, theta, primes, chunk);
    assert(p + cl + 32 == pos + frame_len(f));
}

/// A well-formed sentinel at `pos`, ending the stream, closes it with the
/// code points the count selects.
#[verifier::spinoff_prover]
#[verifier::rlimit(40)]
proof fn lemma_sentinel_decodes(
    sk_fmt: Seq<u8>,
    nonce: Seq<u8>,
    primes: Seq<u64>,
    aad: Seq<u8>,
    s: Seq<u8>,
    f: nat,
    pos: nat,
    idx: nat,
    total: nat,
    delivered: Seq<u32>,
    pending: Option<Seq<u32>>,
    out: Seq<u32>,
)
    requires
        total < 0x1_0000_0000_0000_0000,
        pos <= s.len(),
        s.subrange(pos as int, s.len() as int) == sentinel(sk_fmt, nonce, aad, idx, total),
        sentinel_outcome(total, delivered, pending) == Ok::<Seq<u32>, Seq<char>>(out),
    ensures
        dec_stream(sk_fmt, nonce, primes, aad, s, f, pos, idx, delivered, pending) == Ok::<
            Seq<char>,
            Seq<char>,
        >(chars_of(out)),
{
    let w = s.subrange(pos as int, s.len() as int);
    let tag = sentinel_tag_spec(sk_fmt, nonce, idx, aad, total);
    lemma_be_encode_len(0, 4);
    lemma_be_encode_len(total, 8);
    assert(w.len() == 44);
    assert(s.subrange(pos as int, (pos + 4) as int) =~= w.subrange(0, 4));
    assert(w.subrange(0, 4) =~= be_encode(0, 4));
    lemma_be_value_encode(0, 4);
    lemma_be_value_encode(total, 8);
    lemma_byte_pow_values();
    let p = pos + 4;
    assert(s.subrange(p as int, (p + 8) as int) =~= w.subrange(4, 12));
    assert(w.subrange(4, 12) =~= be_encode(total, 8));
    assert(s.subrange((p + 8) as int, (p + 40) as int) =~= w.subrange(12, 44));
    assert(w.subrange(12, 44) =~= tag);
}

/// Code points released once chunk `j` is decoded: those of the chunks
/// before it.
pub open spec fn delivered_before(cps: Seq<u32>, f: nat, j: nat) -> Seq<u32> {
    if j == 0 {
        seq![]
    } else {
        cps.subrange(0, ((j - 1) * f) as int)
    }
}

/// Code points held back once `j` chunks are decoded: those of the last.
pub open spec fn pending_after(sk_fmt: Seq<u8>, nonce: Seq<u8>, cps: Seq<u32>, f: nat, j: nat) -> Option<
    Seq<u32>,
> {
    if j == 0 {
        None
    } else {
        Some(chunk_cps(sk_fmt, nonce, cps, f, (j - 1) as nat))
    }
}

/// The stream of `msg` is its header, its frames and its sentinel, and the
/// frames take `frame_len(f)` bytes each.
proof fn lemma_stream_layout(
    primes: Seq<u64>,
    sk: Seq<u8>,
    nonce: Seq<u8>,
    aad: Seq<u8>,
    msg: Seq<char>,
    f: nat,
)
    requires
        1 <= f,
        nonce.len() == 16,
    ensures
        ({
            let sk_fmt = format_subkey(sk, FORMAT_STREAM_AE_V8);
            let cps = cps_of(msg);
            let c = chunk_count(cps.len(), f);
            let frames = stream_frames(sk_fmt, nonce, primes, aad, cps, f, c);
            let s = stream_ct(primes, sk, nonce, aad, msg, f);
            &&& s == stream_header(f, nonce) + frames + sentinel(sk_fmt, nonce, aad, c, cps.len())
            &&& stream_header(f, nonce).len() == 21
            &&& frames.len() == c * frame_len(f)
            &&& s.subrange((21 + c * frame_len(f)) as int, s.len() as int) == sentinel(
                sk_fmt,
                nonce,
                aad,
                c,
                cps.len(),
            )
        }),
{
    let sk_fmt = format_subkey(sk, FORMAT_STREAM_AE_V8);
    let cps = cps_of(msg);
    let c = chunk_count(cps.len(), f);
    let frames = stream_frames(sk_fmt, nonce, primes, aad, cps, f, c);
    let sent = sentinel(sk_fmt, nonce, aad, c, cps.len());
    let s = stream_ct(primes, sk, nonce, aad, msg, f);
    lemma_be_encode_len(f, 4);
    lemma_frames_prefix(sk_fmt, nonce, primes, aad, cps, f, c, c);
    assert(s.subrange((21 + c * frame_len(f)) as int, s.len() as int) =~= sent);
}

/// The last step: the sentinel after all frames.
#[verifier::spinoff_prover]
#[verifier::rlimit(40)]
proof fn lemma_stream_end(
    primes: Seq<u64>,
    sk: Seq<u8>,
    nonce: Seq<u8>,
    aad: Seq<u8>,
    msg: Seq<char>,
    f: nat,
)
    requires
        1 <= f <= STREAM_AE_V8_MAX_FRAME,
        nonce.len() == 16,
        msg.len() < 0x1_0000_0000_0000_0000,
    ensures
        ({
            let sk_fmt = format_subkey(sk, FORMAT_STREAM_AE_V8);
            let cps = cps_of(msg);
            let c = chunk_count(msg.len(), f);
            dec_stream(
                sk_fmt,
                nonce,
                primes,
                aad,
                stream_ct(primes, sk, nonce, aad, msg, f),
                f,
                21 + c * frame_len(f),
                c,
                delivered_before(cps, f, c),
                pending_after(sk_fmt, nonce, cps, f, c),
            ) == Ok::<Seq<char>, Seq<char>>(msg)
        }),
{
    let sk_fmt = format_subkey(sk, FORMAT_STREAM_AE_V8);
    let cps = cps_of(msg);
    lemma_cps_of(msg);
    let n = cps.len();
    let c = chunk_count(n, f);
    let s = stream_ct(primes, sk, nonce, aad, msg, f);
    lemma_stream_layout(primes, sk, nonce, aad, msg, f);
    lemma_chunk_count(n, f);
    let pos = 21 + c * frame_len(f);
    let d = delivered_before(cps, f, c);
    let pd = pending_after(sk_fmt, nonce, cps, f, c);
    if c == 0 {
        assert(n == 0) by (nonlinear_arith)
            requires
                c * f >= n,
                c == 0,
        ;
        assert(cps =~= d);
    } else {
        let m = (c - 1) as nat;
        lemma_chunk_start(m, n, f);
        lemma_chunk_cps_shape(sk_fmt, nonce, cps, f, m);
        assert(c * f == m * f + f) by (nonlinear_arith)
            requires
                c == m + 1,
        ;
        let last = chunk_cps(sk_fmt, nonce, cps, f, m);
        if c * f <= n {
            assert(last.subrange(0, n - m * f) =~= last);
        }
        assert(last.subrange(0, n - m * f) == cps.subrange((m * f) as int, n as int));
        assert(d + last.subrange(0, n - m * f) =~= cps);
    }
    assert(sentinel_outcome(n, d, pd) == Ok::<Seq<u32>, Seq<char>>(cps));
    lemma_sentinel_decodes(sk_fmt, nonce, primes, aad, s, f, pos, c, n, d, pd, cps);
}

/// Chunk `j`'s frame sits at its place in the stream.
#[verifier::spinoff_prover]
#[verifier::rlimit(40)]
proof fn lemma_frame_at(
    primes: Seq<u64>,
    sk: Seq<u8>,
    nonce: Seq<u8>,
    aad: Seq<u8>,
    msg: Seq<char>,
    f: nat,
    j: nat,
)
    requires
        1 <= f <= STREAM_AE_V8_MAX_FRAME,
        nonce.len() == 16,
        j < chunk_count(msg.len(), f),
    ensures
        ({
            let sk_fmt = format_subkey(sk, FORMAT_STREAM_AE_V8);
            let cps = cps_of(msg);
            let s = stream_ct(primes, sk, nonce, aad, msg, f);
            let chunk = chunk_cps(sk_fmt, nonce, cps, f, j);
            let pos = 21 + j * frame_len(f);
            &&& chunk.len() == f
            &&& all_scalar(chunk)
            &&& pos + frame_len(f) <= s.len()
            &&& pos + frame_len(f) == 21 + (j + 1) * frame_len(f)
            &&& s.subrange(pos as int, (pos + frame_len(f)) as int) == chunk_frame(
                sk_fmt,
                nonce,
                primes,
                aad,
                chunk,
                j,
            )
            &&& s.subrange(pos as int, (pos + 4) as int) == be_encode(160 * f, 4)
        }),
{
    let sk_fmt = format_subkey(sk, FORMAT_STREAM_AE_V8);
    let cps = cps_of(msg);
    lemma_cps_of(msg);
    let n = cps.len();
    let c = chunk_count(n, f);
    let l = frame_len(f);
    let frames = stream_frames(sk_fmt, nonce, primes, aad, cps, f, c);
    let s = stream_ct(primes, sk, nonce, aad, msg, f);
    lemma_stream_layout(primes, sk, nonce, aad, msg, f);
    let pos = 21 + j * l;
    lemma_chunk_start(j, n, f);
    lemma_chunk_cps_shape(sk_fmt, nonce, cps, f, j);
    let chunk = chunk_cps(sk_fmt, nonce, cps, f, j);
    lemma_frames_prefix(sk_fmt, nonce, primes, aad, cps, f, c, j + 1);
    lemma_frames_prefix(sk_fmt, nonce, primes, aad, cps, f, j + 1, j);
    assert((j + 1) * l == j * l + l) by (nonlinear_arith);
    assert((j + 1) * l <= c * l) by (nonlinear_arith)
        requires
            j + 1 <= c,
    ;
    let fj = stream_frames(sk_fmt, nonce, primes, aad, cps, f, j + 1);
    lemma_chunk_frame_len(sk_fmt, nonce, primes, aad, chunk, j);
    assert(fj.subrange((j * l) as int, ((j + 1) * l) as int) =~= chunk_frame(
        sk_fmt,
        nonce,
        primes,
        aad,
        chunk,
        j,
    ));
    assert(frames.subrange((j * l) as int, ((j + 1) * l) as int) =~= fj.subrange(
        (j * l) as int,
        ((j + 1) * l) as int,
    ));
    assert(s.subrange(pos as int, (pos + l) as int) =~= frames.subrange(
        (j * l) as int,
        ((j + 1) * l) as int,
    ));
    assert(s.subrange(pos as int, (pos + 4) as int) =~= s.subrange(pos as int, (pos + l) as int).subrange(
        0,
        4,
    ));
}

/// One step: chunk `j`'s frame decodes to its chunk.
#[verifier::spinoff_prover]
#[verifier::rlimit(40)]
proof fn lemma_stream_step(
    primes: Seq<u64>,
    sk: Seq<u8>,
    nonce: Seq<u8>,
    aad: Seq<u8>,
    msg: Seq<char>,
    f: nat,
    j: nat,
)
    requires
        chunk_count(msg.len(), f) <= 0xFFFF_FFFF,
        valid_key(primes),
        1 <= f <= STREAM_AE_V8_MAX_FRAME,
        nonce.len() == 16,
        j < chunk_count(msg.len(), f),
    ensures
        ({
            let sk_fmt = format_subkey(sk, FORMAT_STREAM_AE_V8);
            let cps = cps_of(msg);
            let s = stream_ct(primes, sk, nonce, aad, msg, f);
            dec_stream(
                sk_fmt,
                nonce,
                primes,
                aad,
                s,
                f,
                21 + j * frame_len(f),
                j,
                delivered_before(cps, f, j),
                pending_after(sk_fmt, nonce, cps, f, j),
            ) == dec_stream(
                sk_fmt,
                nonce,
                primes,
                aad,
                s,
                f,
                21 + (j + 1) * frame_len(f),
                j + 1,
                delivered_before(cps, f, j + 1),
                pending_after(sk_fmt, nonce, cps, f, j + 1),
            )
        }),
{
    let sk_fmt = format_subkey(sk, FORMAT_STREAM_AE_V8);
    let cps = cps_of(msg);
    lemma_cps_of(msg);
    let n = cps.len();
    let s = stream_ct(primes, sk, nonce, aad, msg, f);
    let pos = 21 + j * frame_len(f);
    let d = delivered_before(cps, f, j);
    let pd = pending_after(sk_fmt, nonce, cps, f, j);
    lemma_frame_at(primes, sk, nonce, aad, msg, f, j);
    lemma_valid_key_tokens(primes);
    let chunk = chunk_cps(sk_fmt, nonce, cps, f, j);
    lemma_frame_decodes(sk_fmt, nonce, primes, aad, s, f, pos, j, chunk, d, pd);
    let d2 = match pd {
        Some(q) => d + q,
        None => d,
    };
    if j == 0 {
        assert(d2 =~= delivered_before(cps, f, 1));
    } else {
        let m = (j - 1) as nat;
        lemma_chunk_start(m, n, f);
        lemma_chunk_start(j, n, f);
        lemma_chunk_cps_shape(sk_fmt, nonce, cps, f, m);
        assert(j * f == m * f + f) by (nonlinear_arith)
            requires
                j == m + 1,
        ;
        assert(d2 =~= delivered_before(cps, f, j + 1));
    }
}

/// From the frame of chunk `j` on, the stream decodes to the message.
proof fn lemma_stream_from(
    primes: Seq<u64>,
    sk: Seq<u8>,
    nonce: Seq<u8>,
    aad: Seq<u8>,
    msg: Seq<char>,
    f: nat,
    j: nat,
)
    requires
        chunk_count(msg.len(), f) <= 0xFFFF_FFFF,
        valid_key(primes),
        1 <= f <= STREAM_AE_V8_MAX_FRAME,
        nonce.len() == 16,
        msg.len() < 0x1_0000_0000_0000_0000,
        j <= chunk_count(msg.len(), f),
    ensures
        ({
            let sk_fmt = format_subkey(sk, FORMAT_STREAM_AE_V8);
            let cps = cps_of(msg);
            dec_stream(
                sk_fmt,
                nonce,
                primes,
                aad,
                stream_ct(primes, sk, nonce, aad, msg, f),
                f,
                21 + j * frame_len(f),
                j,
                delivered_before(cps, f, j),
                pending_after(sk_fmt, nonce, cps, f, j),
            ) == Ok::<Seq<char>, Seq<char>>(msg)
        }),
    decreases chunk_count(msg.len(), f) - j,
{
    if j == chunk_count(msg.len(), f) {
        lemma_stream_end(primes, sk, nonce, aad, msg, f);
    } else {
        lemma_stream_step(primes, sk, nonce, aad, msg, f, j);
        lemma_stream_from(primes, sk, nonce, aad, msg, f, j + 1);
    }
}

/// Decryption gives back every message that streaming encryption accepted,
/// under the same primes, `sk`, nonce and AAD, for every message of at most
/// 2^32 - 1 chunks (the encryptors refuse to number more).
pub proof fn lemma_stream_roundtrip(
    primes: Seq<u64>,
    sk: Seq<u8>,
    nonce: Seq<u8>,
    aad: Seq<u8>,
    msg: Seq<char>,
    f: nat,
)
    requires
        encrypt_stream_spec(primes, sk, nonce, aad, msg, f) is Ok,
        nonce.len() == 16,
        chunk_count(msg.len(), f) <= 0xFFFF_FFFF,
    ensures
        decrypt_stream_spec(
            primes,
            sk,
            aad,
            encrypt_stream_spec(primes, sk, nonce, aad, msg, f)->Ok_0,
        ) == Ok::<Seq<char>, Seq<char>>(msg),
{
    lemma_key_check_ok(primes);
    let s = stream_ct(primes, sk, nonce, aad, msg, f);
    lemma_cps_of(msg);
    lemma_chunk_count(msg.len(), f);
    let c = chunk_count(msg.len(), f);
    assert(c * f <= 0xFFFF_FFFF * STREAM_AE_V8_MAX_FRAME) by (nonlinear_arith)
        requires
            c <= 0xFFFF_FFFF,
            f <= STREAM_AE_V8_MAX_FRAME,
    ;
    lemma_stream_from(primes, sk, nonce, aad, msg, f, 0);
    let sk_fmt = format_subkey(sk, FORMAT_STREAM_AE_V8);
    let cps = cps_of(msg);
    let c = chunk_count(cps.len(), f);
    let header = stream_header(f, nonce);
    lemma_be_encode_len(f, 4);
    assert(s == header + stream_frames(sk_fmt, nonce, primes, aad, cps, f, c) + sentinel(
        sk_fmt,
        nonce,
        aad,
        c,
        cps.len(),
    ));
    assert(s[0] == FORMAT_STREAM_AE_V8);
    assert(s.subrange(1, 5) =~= be_encode(f, 4));
    lemma_be_value_encode(f, 4);
    lemma_byte_pow_values();
    assert(s.subrange(5, 21) =~= nonce);
    assert(0 * frame_len(f) == 0);
}

/// From chunk `j` on, a stream cut short before its end fails to decode.
#[verifier::spinoff_prover]
#[verifier::rlimit(40)]
proof fn lemma_trunc_from(
    primes: Seq<u64>,
    sk: Seq<u8>,
    nonce: Seq<u8>,
    aad: Seq<u8>,
    msg: Seq<char>,
    f: nat,
    j: nat,
    k: nat,
)
    requires
        chunk_count(msg.len(), f) <= 0xFFFF_FFFF,
        valid_key(primes),
        1 <= f <= STREAM_AE_V8_MAX_FRAME,
        nonce.len() == 16,
        j <= chunk_count(msg.len(), f),
        k < stream_ct(primes, sk, nonce, aad, msg, f).len(),
    ensures
        ({
            let sk_fmt = format_subkey(sk, FORMAT_STREAM_AE_V8);
            let cps = cps_of(msg);
            dec_stream(
                sk_fmt,
                nonce,
                primes,
                aad,
                stream_ct(primes, sk, nonce, aad, msg, f).subrange(0, k as int),
                f,
                21 + j * frame_len(f),
                j,
                delivered_before(cps, f, j),
                pending_after(sk_fmt, nonce, cps, f, j),
            ) is Err
        }),
    decreases chunk_count(msg.len(), f) - j,
{
    let sk_fmt = format_subkey(sk, FORMAT_STREAM_AE_V8);
    let cps = cps_of(msg);
    lemma_cps_of(msg);
    let s = stream_ct(primes, sk, nonce, aad, msg, f);
    let t = s.subrange(0, k as int);
    let c = chunk_count(msg.len(), f);
    let pos = 21 + j * frame_len(f);
    let d = delivered_before(cps, f, j);
    let pd = pending_after(sk_fmt, nonce, cps, f, j);
    lemma_byte_pow_values();
    if k >= pos + 4 {
        if j == c {
            lemma_stream_layout(primes, sk, nonce, aad, msg, f);
            lemma_be_encode_len(0, 4);
            lemma_be_encode_len(cps.len(), 8);
            let sent = sentinel(sk_fmt, nonce, aad, c, cps.len());
            assert(t.subrange(pos as int, (pos + 4) as int) =~= sent.subrange(0, 4));
            assert(sent.subrange(0, 4) =~= be_encode(0, 4));
            lemma_be_value_encode(0, 4);
        } else {
            lemma_frame_at(primes, sk, nonce, aad, msg, f, j);
            assert(t.subrange(pos as int, (pos + 4) as int) =~= s.subrange(
                pos as int,
                (pos + 4) as int,
            ));
            lemma_be_value_encode(160 * f, 4);
            if k >= pos + frame_len(f) {
                let chunk = chunk_cps(sk_fmt, nonce, cps, f, j);
                assert(t.subrange(pos as int, (pos + frame_len(f)) as int) =~= s.subrange(
                    pos as int,
                    (pos + frame_len(f)) as int,
                ));
                lemma_valid_key_tokens(primes);
                lemma_frame_decodes(sk_fmt, nonce, primes, aad, t, f, pos, j, chunk, d, pd);
                lemma_stream_step(primes, sk, nonce, aad, msg, f, j);
                lemma_trunc_from(primes, sk, nonce, aad, msg, f, j + 1, k);
                let d2 = match pd {
                    Some(q) => d + q,
                    None => d,
                };
                assert(d2 == delivered_before(cps, f, j + 1)) by {
                    if j > 0 {
                        let m = (j - 1) as nat;
                        lemma_chunk_start(m, cps.len(), f);
                        lemma_chunk_start(j, cps.len(), f);
                        lemma_chunk_cps_shape(sk_fmt, nonce, cps, f, m);
                        assert(j * f == m * f + f) by (nonlinear_arith)
                            requires
                                j == m + 1,
                        ;
                        assert(d2 =~= delivered_before(cps, f, j + 1));
                    } else {
                        assert(d2 =~= delivered_before(cps, f, j + 1));
                    }
                }
            }
        }
    }
}

/// A valid stream (of at most 2^32 - 1 chunks, as the encryptors make)
/// cut short anywhere fails to decrypt: the sentinel binds the end of the
/// stream.
pub proof fn lemma_stream_truncation_refused(
    primes: Seq<u64>,
    sk: Seq<u8>,
    nonce: Seq<u8>,
    aad: Seq<u8>,
    msg: Seq<char>,
    f: nat,
    k: nat,
)
    requires
        encrypt_stream_spec(primes, sk, nonce, aad, msg, f) is Ok,
        nonce.len() == 16,
        chunk_count(msg.len(), f) <= 0xFFFF_FFFF,
        k < encrypt_stream_spec(primes, sk, nonce, aad, msg, f)->Ok_0.len(),
    ensures
        decrypt_stream_spec(
            primes,
            sk,
            aad,
            encrypt_stream_spec(primes, sk, nonce, aad, msg, f)->Ok_0.subrange(0, k as int),
        ) is Err,
{
    lemma_key_check_ok(primes);
    let s = stream_ct(primes, sk, nonce, aad, msg, f);
    let t = s.subrange(0, k as int);
    if k >= 21 {
        lemma_be_encode_len(f, 4);
        assert(s[0] == FORMAT_STREAM_AE_V8);
        assert(t[0] == s[0]);
        assert(t.subrange(1, 5) =~= be_encode(f, 4));
        lemma_be_value_encode(f, 4);
        lemma_byte_pow_values();
        assert(t.subrange(5, 21) =~= nonce);
        assert(0 * frame_len(f) == 0);
        lemma_trunc_from(primes, sk, nonce, aad, msg, f, 0, k);
    }
}

/// The length of a stream depends on the frame size and the number of
/// chunks alone: header, one fixed-size frame per chunk, sentinel.
pub proof fn lemma_stream_len(
    primes: Seq<u64>,
    sk: Seq<u8>,
    nonce: Seq<u8>,
    aad: Seq<u8>,
    msg: Seq<char>,
    f: nat,
)
    requires
        encrypt_stream_spec(primes, sk, nonce, aad, msg, f) is Ok,
        nonce.len() == 16,
    ensures
        encrypt_stream_spec(primes, sk, nonce, aad, msg, f)->Ok_0.len() == 21 + chunk_count(
            msg.len(),
            f,
        ) * frame_len(f) + 44,
{
    lemma_stream_layout(primes, sk, nonce, aad, msg, f);
    lemma_cps_of(msg);
    let sk_fmt = format_subkey(sk, FORMAT_STREAM_AE_V8);
    lemma_be_encode_len(0, 4);
    lemma_be_encode_len(msg.len(), 8);
}


proof fn lemma_dec_stream_extended(
    sk_fmt: Seq<u8>,
    nonce: Seq<u8>,
    primes: Seq<u64>,
    aad: Seq<u8>,
    s: Seq<u8>,
    extra: Seq<u8>,
    f: nat,
    pos: nat,
    idx: nat,
    delivered: Seq<u32>,
    pending: Option<Seq<u32>>,
)
    requires
        dec_stream(sk_fmt, nonce, primes, aad, s, f, pos, idx, delivered, pending) is Ok,
        extra.len() > 0,
    ensures
        dec_stream(sk_fmt, nonce, primes, aad, s + extra, f, pos, idx, delivered, pending) is Err,
    decreases s.len() - pos,
{
    let t = s + extra;
    let cl = be_value(s.subrange(pos as int, (pos + 4) as int));
    let p = pos + 4;
    assert(t.subrange(pos as int, (pos + 4) as int) =~= s.subrange(pos as int, (pos + 4) as int));
    if cl == 0 {
        assert(t.subrange(p as int, (p + 8) as int) =~= s.subrange(p as int, (p + 8) as int));
        assert(t.subrange((p + 8) as int, (p + 40) as int) =~= s.subrange(
            (p + 8) as int,
            (p + 40) as int,
        ));
    } else {
        let masked = s.subrange(p as int, (p + cl) as int);
        assert(t.subrange(p as int, (p + cl) as int) =~= masked);
        assert(t.subrange((p + cl) as int, (p + cl + 32) as int) =~= s.subrange(
            (p + cl) as int,
            (p + cl + 32) as int,
        ));
        let sub = sub_nonce_spec(sk_fmt, nonce, idx);
        let blob = xor_seq(masked, keystream_spec(sk_fmt, sub, cl));
        let tokens = fixed_decode(blob)->Ok_0;
        let cps = chunk_decode(sk_fmt, sub, primes, tokens, f)->Ok_0;
        lemma_dec_stream_extended(
            sk_fmt,
            nonce,
            primes,
            aad,
            s,
            extra,
            f,
            p + cl + 32,
            idx + 1,
            match pending {
                Some(q) => delivered + q,
                None => delivered,
            },
            Some(cps),
        );
    }
}

/// A stream that decrypts stops being accepted once any bytes follow it.
pub proof fn lemma_stream_trailing_refused(
    primes: Seq<u64>,
    sk: Seq<u8>,
    aad: Seq<u8>,
    stream: Seq<u8>,
    extra: Seq<u8>,
)
    requires
        decrypt_stream_spec(primes, sk, aad, stream) is Ok,
        extra.len() > 0,
    ensures
        decrypt_stream_spec(primes, sk, aad, stream + extra) is Err,
{
    let t = stream + extra;
    assert(t.subrange(1, 5) =~= stream.subrange(1, 5));
    assert(t.subrange(5, 21) =~= stream.subrange(5, 21));
    let f = be_value(stream.subrange(1, 5));
    lemma_dec_stream_extended(
        format_subkey(sk, FORMAT_STREAM_AE_V8),
        stream.subrange(5, 21),
        primes,
        aad,
        stream,
        extra,
        f,
        21,
        0,
        seq![],
        None,
    );
}

} // verus!
