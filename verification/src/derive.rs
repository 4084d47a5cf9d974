//! The domain-separated HMAC derivations of the scheme. Every derived value is
//! `HMAC(key, d || ...)` for a one-byte domain `d`; the spec functions here
//! name each of them over `digest`, and each executable function computes
//! exactly one of them.
use crate::bytes::{
    append_bytes, be_bytes, be_encode, be_read, be_u32_of, be_u64_of, byte_pow, lemma_be_value_bound,
    lemma_byte_pow_values,
};
use crate::primitives::{digest, hmac_digest, hmac_sha256};
use vstd::prelude::*;

verus! {

/// Nonce length in bytes.
pub const NONCE_SIZE: usize = 16;

/// Authentication tag length in bytes.
pub const TAG_SIZE: usize = 32;

/// Lower end of the v8 noise-threshold interval, `floor(0.75 * 2^64)`.
pub const THETA_MIN: u64 = 13_835_058_055_282_163_712;

/// Upper end of the v8 noise-threshold interval, `floor(0.99 * 2^64)`.
pub const THETA_MAX: u64 = 18_262_276_632_972_456_099;

/// Alphabet size of noise code points (32..=127).
pub const NOISE_ALPHABET: u64 = 96;

/// Alphabet size of padding code points (32..=126).
pub const PAD_ALPHABET: u64 = 95;

/// First code point of both alphabets.
pub const ASCII_PRINTABLE_BASE: u64 = 32;

/// HMAC-SHA256 with its 32 bytes.
pub fn mac(key: &[u8], data: &[u8]) -> (out: [u8; 32])
    ensures
        out@ == digest(key@, data@),
{
    let out = hmac_digest(key, data);
    assert(out@ =~= digest(key@, data@));
    out
}

/// Serialisation of a prime tuple: the low five bytes of each element,
/// big-endian, in order.
pub open spec fn key_bytes_spec(key: Seq<u64>) -> Seq<u8>
    decreases key.len(),
{
    if key.len() == 0 {
        Seq::empty()
    } else {
        key_bytes_spec(key.drop_last()) + be_encode(key.last() as nat, 5)
    }
}

pub fn key_bytes(key: &[u64]) -> (out: Vec<u8>)
    ensures
        out@ == key_bytes_spec(key@),
{
    let mut out: Vec<u8> = Vec::new();
    let mut i: usize = 0;
    while i < key.len()
        invariant
            i <= key@.len(),
            out@ == key_bytes_spec(key@.subrange(0, i as int)),
        decreases key@.len() - i,
    {
        let b = be_bytes(key[i], 5);
        append_bytes(&mut out, b.as_slice());
        proof {
            assert(key@.subrange(0, i + 1).drop_last() =~= key@.subrange(0, i as int));
        }
        i = i + 1;
    }
    assert(key@.subrange(0, i as int) =~= key@);
    out
}

/// `d || nonce || be5(p)`: the input of every per-position derivation.
pub open spec fn pos_input(d: u8, nonce: Seq<u8>, p: nat) -> Seq<u8> {
    seq![d] + nonce + be_encode(p, 5)
}

/// `d || nonce || be4(i)`.
pub open spec fn index_input(d: u8, nonce: Seq<u8>, i: nat) -> Seq<u8> {
    seq![d] + nonce + be_encode(i, 4)
}

/// Domain 0x00, v8: position `p` carries a noise token.
pub open spec fn is_noise_v8(kb: Seq<u8>, nonce: Seq<u8>, p: nat, theta: nat) -> bool {
    be_u64_of(digest(kb, pos_input(0x00, nonce, p))) < theta
}

/// Domain 0x01: additive mask of the `i`-th real token under key element `k`,
/// in `[1, k - 1]`.
pub open spec fn addend(kb: Seq<u8>, nonce: Seq<u8>, i: nat, k: nat) -> nat {
    be_u32_of(digest(kb, pos_input(0x01, nonce, i))) % ((k - 1) as nat) + 1
}

/// Domain 0x04: code point of the noise token at position `p`, in `[32, 127]`.
pub open spec fn noise_char(kb: Seq<u8>, nonce: Seq<u8>, p: nat) -> nat {
    be_u32_of(digest(kb, pos_input(0x04, nonce, p))) % (NOISE_ALPHABET as nat)
        + (ASCII_PRINTABLE_BASE as nat)
}

/// Domain 0x05: additive mask of the noise token at position `p`.
pub open spec fn noise_addend(kb: Seq<u8>, nonce: Seq<u8>, p: nat, k: nat) -> nat {
    be_u32_of(digest(kb, pos_input(0x05, nonce, p))) % ((k - 1) as nat) + 1
}

/// The noise token at position `p` under key element `k`.
pub open spec fn noise_token(kb: Seq<u8>, nonce: Seq<u8>, p: nat, k: nat) -> nat {
    noise_char(kb, nonce, p) * k + noise_addend(kb, nonce, p, k)
}

/// The real token for code point `c`, the `i`-th real token, under `k`.
pub open spec fn real_token(kb: Seq<u8>, nonce: Seq<u8>, c: nat, i: nat, k: nat) -> nat {
    c * k + addend(kb, nonce, i, k)
}

/// Domain 0x02, v8: the noise threshold
/// `THETA_MIN + floor(tau * (THETA_MAX - THETA_MIN) / 2^64)`.
pub open spec fn theta_v8(kb: Seq<u8>, nonce: Seq<u8>) -> nat {
    (THETA_MIN as nat) + (be_u64_of(digest(kb, seq![0x02u8] + nonce)) * ((THETA_MAX
        - THETA_MIN) as nat)) / (0x1_0000_0000_0000_0000 as nat)
}

/// Domain 0x06: padding (and stream filler) code point number `i`, in
/// `[32, 126]`.
pub open spec fn pad_cp(kb: Seq<u8>, nonce: Seq<u8>, i: nat) -> nat {
    be_u32_of(digest(kb, index_input(0x06, nonce, i))) % (PAD_ALPHABET as nat)
        + (ASCII_PRINTABLE_BASE as nat)
}

/// Domain 0x07: keystream block `b`.
pub open spec fn ks_block(kb: Seq<u8>, nonce: Seq<u8>, b: nat) -> Seq<u8> {
    digest(kb, index_input(0x07, nonce, b))
}

/// The first `n` keystream blocks, concatenated.
pub open spec fn ks_blocks(kb: Seq<u8>, nonce: Seq<u8>, n: nat) -> Seq<u8>
    decreases n,
{
    if n == 0 {
        Seq::empty()
    } else {
        ks_blocks(kb, nonce, (n - 1) as nat) + ks_block(kb, nonce, (n - 1) as nat)
    }
}

/// The first `len` keystream bytes.
pub open spec fn keystream_spec(kb: Seq<u8>, nonce: Seq<u8>, len: nat) -> Seq<u8> {
    ks_blocks(kb, nonce, (len + 31) / 32).subrange(0, len as int)
}

/// Domain 0x03: authentication tag over `nonce`, the AAD length prefix of
/// `w` bytes, the AAD and the masked blob.
pub open spec fn auth_tag(kb: Seq<u8>, aad: Seq<u8>, nonce: Seq<u8>, masked: Seq<u8>, w: nat) -> Seq<
    u8,
> {
    digest(kb, seq![0x03u8] + nonce + be_encode(aad.len(), w) + aad + masked)
}

/// Domain 0x0B: the subkey of one wire format.
pub open spec fn format_subkey(sk: Seq<u8>, format_id: u8) -> Seq<u8> {
    digest(sk, seq![0x0Bu8, format_id])
}

/// Domain 0x0A: synthetic nonce over the AAD and the message bytes.
pub open spec fn synthetic_nonce_spec(sk_fmt: Seq<u8>, aad: Seq<u8>, message: Seq<u8>) -> Seq<u8> {
    digest(sk_fmt, seq![0x0Au8] + be_encode(aad.len(), 8) + aad + message).subrange(0, 16)
}

/// Domain 0x0E: nonce of stream chunk `idx`.
pub open spec fn sub_nonce_spec(sk_fmt: Seq<u8>, nonce: Seq<u8>, idx: nat) -> Seq<u8> {
    digest(sk_fmt, index_input(0x0E, nonce, idx)).subrange(0, 16)
}

/// Domain 0x0C: tag of stream chunk `idx`.
pub open spec fn chunk_tag_spec(sk_fmt: Seq<u8>, nonce: Seq<u8>, idx: nat, aad: Seq<u8>, masked: Seq<
    u8,
>) -> Seq<u8> {
    digest(
        sk_fmt,
        seq![0x0Cu8] + nonce + be_encode(idx, 4) + be_encode(aad.len(), 8) + aad + masked,
    )
}

/// Domain 0x0D: tag of a stream's sentinel.
pub open spec fn sentinel_tag_spec(
    sk_fmt: Seq<u8>,
    nonce: Seq<u8>,
    count: nat,
    aad: Seq<u8>,
    total: nat,
) -> Seq<u8> {
    digest(
        sk_fmt,
        seq![0x0Du8] + nonce + be_encode(count, 4) + be_encode(aad.len(), 8) + aad + be_encode(
            total,
            8,
        ),
    )
}

fn prefixed(d: u8, nonce: &[u8]) -> (out: Vec<u8>)
    ensures
        out@ == seq![d] + nonce@,
{
    let mut buf: Vec<u8> = Vec::new();
    buf.push(d);
    append_bytes(&mut buf, nonce);
    assert(buf@ =~= seq![d] + nonce@);
    buf
}

fn pos_buffer(d: u8, nonce: &[u8], p: u64) -> (out: Vec<u8>)
    ensures
        out@ == pos_input(d, nonce@, p as nat),
{
    let mut buf = prefixed(d, nonce);
    let b = be_bytes(p, 5);
    append_bytes(&mut buf, b.as_slice());
    buf
}

fn index_buffer(d: u8, nonce: &[u8], i: u32) -> (out: Vec<u8>)
    ensures
        out@ == index_input(d, nonce@, i as nat),
{
    let mut buf = prefixed(d, nonce);
    let b = be_bytes(i as u64, 4);
    append_bytes(&mut buf, b.as_slice());
    buf
}

/// Big-endian `u64` from the first eight bytes of a digest.
pub fn digest_u64(d: &[u8; 32]) -> (x: u64)
    ensures
        x as nat == be_u64_of(d@),
{
    be_read(&d[0..8])
}

/// Big-endian `u32` from the first four bytes of a digest.
pub fn digest_u32(d: &[u8; 32]) -> (x: u64)
    ensures
        x as nat == be_u32_of(d@),
        x < 0x1_0000_0000,
{
    proof {
        lemma_be_value_bound(d@.subrange(0, 4));
        lemma_byte_pow_values();
    }
    be_read(&d[0..4])
}

pub fn is_noise_pos_v8(kb: &[u8], nonce: &[u8], ct_pos: u64, theta: u64) -> (r: bool)
    ensures
        r == is_noise_v8(kb@, nonce@, ct_pos as nat, theta as nat),
{
    let buf = pos_buffer(0x00, nonce, ct_pos);
    let d = mac(kb, buf.as_slice());
    digest_u64(&d) < theta
}

pub fn derive_addend(kb: &[u8], nonce: &[u8], real_idx: u64, key_element: u64) -> (r: u64)
    requires
        key_element >= 2,
    ensures
        r as nat == addend(kb@, nonce@, real_idx as nat, key_element as nat),
        1 <= r < key_element,
{
    let buf = pos_buffer(0x01, nonce, real_idx);
    let d = mac(kb, buf.as_slice());
    digest_u32(&d) % (key_element - 1) + 1
}

pub fn derive_noise_char(kb: &[u8], nonce: &[u8], ct_pos: u64) -> (r: u64)
    ensures
        r as nat == noise_char(kb@, nonce@, ct_pos as nat),
        32 <= r < 128,
{
    let buf = pos_buffer(0x04, nonce, ct_pos);
    let d = mac(kb, buf.as_slice());
    digest_u32(&d) % NOISE_ALPHABET + ASCII_PRINTABLE_BASE
}

pub fn derive_noise_token_addend(kb: &[u8], nonce: &[u8], ct_pos: u64, key_element: u64) -> (r:
    u64)
    requires
        key_element >= 2,
    ensures
        r as nat == noise_addend(kb@, nonce@, ct_pos as nat, key_element as nat),
        1 <= r < key_element,
{
    let buf = pos_buffer(0x05, nonce, ct_pos);
    let d = mac(kb, buf.as_slice());
    digest_u32(&d) % (key_element - 1) + 1
}

/// The noise token at `ct_pos` under key element `k`.
pub fn noise_token_at(kb: &[u8], nonce: &[u8], ct_pos: u64, k: u64) -> (t: u64)
    requires
        2 <= k <= 0xFFFF_FFFF,
    ensures
        t as nat == noise_token(kb@, nonce@, ct_pos as nat, k as nat),
{
    let nc = derive_noise_char(kb, nonce, ct_pos);
    let na = derive_noise_token_addend(kb, nonce, ct_pos, k);
    assert(nc * k + na < 129 * 0x1_0000_0000) by (nonlinear_arith)
        requires
            nc < 128,
            k <= 0xFFFF_FFFF,
            na < k,
    ;
    nc * k + na
}

/// The real token for code point `c`.
pub fn real_token_at(kb: &[u8], nonce: &[u8], c: u32, real_idx: u64, k: u64) -> (t: u64)
    requires
        2 <= k <= 0xFFFF_FFFF,
    ensures
        t as nat == real_token(kb@, nonce@, c as nat, real_idx as nat, k as nat),
{
    let a = derive_addend(kb, nonce, real_idx, k);
    assert((c as u64) * k + a < 0x1_0000_0000 * 0x1_0000_0000) by (nonlinear_arith)
        requires
            c < 0x1_0000_0000,
            k <= 0xFFFF_FFFF,
            a < k,
    ;
    (c as u64) * k + a
}

pub fn derive_noise_threshold_v8(kb: &[u8], nonce: &[u8]) -> (theta: u64)
    ensures
        theta as nat == theta_v8(kb@, nonce@),
{
    let buf = prefixed(0x02, nonce);
    let d = mac(kb, buf.as_slice());
    let tau = digest_u64(&d) as u128;
    let span = (THETA_MAX - THETA_MIN) as u128;
    assert(tau * span <= 0xFFFF_FFFF_FFFF_FFFF * 4_427_218_577_690_292_387) by (nonlinear_arith)
        requires
            tau <= 0xFFFF_FFFF_FFFF_FFFF,
            span == 4_427_218_577_690_292_387,
    ;
    let q = (tau * span) / 0x1_0000_0000_0000_0000u128;
    assert(q < 4_427_218_577_690_292_387) by (nonlinear_arith)
        requires
            q == (tau * span) / 0x1_0000_0000_0000_0000,
            tau <= 0xFFFF_FFFF_FFFF_FFFF,
            span == 4_427_218_577_690_292_387,
    ;
    THETA_MIN + q as u64
}

/// Domain 0x06: padding or filler code point number `i`.
pub fn derive_pad_cp(kb: &[u8], nonce: &[u8], i: u32) -> (c: u32)
    ensures
        c as nat == pad_cp(kb@, nonce@, i as nat),
        32 <= c <= 126,
{
    let buf = index_buffer(0x06, nonce, i);
    let d = mac(kb, buf.as_slice());
    (digest_u32(&d) % PAD_ALPHABET + ASCII_PRINTABLE_BASE) as u32
}

proof fn lemma_ks_blocks_len(kb: Seq<u8>, nonce: Seq<u8>, n: nat)
    ensures
        ks_blocks(kb, nonce, n).len() == 32 * n,
    decreases n,
{
    if n > 0 {
        lemma_ks_blocks_len(kb, nonce, (n - 1) as nat);
    }
}

pub proof fn lemma_keystream_len(kb: Seq<u8>, nonce: Seq<u8>, len: nat)
    ensures
        keystream_spec(kb, nonce, len).len() == len,
{
    lemma_ks_blocks_len(kb, nonce, (len + 31) / 32);
}

/// Largest keystream length whose block counter fits a `u32`.
pub open spec fn max_keystream_len() -> nat {
    32 * 0xFFFF_FFFF
}

/// HMAC-CTR keystream of `length` bytes (domain 0x07).
pub fn varint_keystream(kb: &[u8], nonce: &[u8], length: usize) -> (out: Vec<u8>)
    requires
        length as nat <= max_keystream_len(),
    ensures
        out@ == keystream_spec(kb@, nonce@, length as nat),
{
    let mut out: Vec<u8> = Vec::new();
    let mut block: u32 = 0;
    while out.len() < length
        invariant
            out@ == ks_blocks(kb@, nonce@, block as nat),
            out@.len() == 32 * block,
            block as nat <= (length as nat + 31) / 32,
            length as nat <= max_keystream_len(),
        decreases (length as nat + 31) / 32 - block as nat,
    {
        let buf = index_buffer(0x07, nonce, block);
        let d = mac(kb, buf.as_slice());
        append_bytes(&mut out, &d);
        proof {
            lemma_ks_blocks_len(kb@, nonce@, block as nat);
        }
        assert((block as nat + 1) <= (length as nat + 31) / 32);
        block = block + 1;
    }
    proof {
        assert(block as nat == (length as nat + 31) / 32);
    }
    out.truncate(length);
    out
}

/// Big-endian AAD length prefix of `width` bytes.
pub fn be_len_prefix(n: usize, width: usize) -> (out: Vec<u8>)
    requires
        width <= 8,
        n < byte_pow(width as nat),
    ensures
        out@ == be_encode(n as nat, width as nat),
{
    be_bytes(n as u64, width)
}

/// Domain 0x03 tag over `payload = nonce || masked`.
pub fn compute_auth_tag(kb: &[u8], aad: &[u8], payload: &[u8], aad_len_width: usize) -> (tag: [u8;
    32])
    requires
        payload@.len() >= NONCE_SIZE,
        aad_len_width <= 8,
        aad@.len() < byte_pow(aad_len_width as nat),
    ensures
        tag@ == auth_tag(
            kb@,
            aad@,
            payload@.subrange(0, 16),
            payload@.subrange(16, payload@.len() as int),
            aad_len_width as nat,
        ),
{
    let mut buf: Vec<u8> = Vec::new();
    buf.push(0x03);
    append_bytes(&mut buf, &payload[0..NONCE_SIZE]);
    let lp = be_len_prefix(aad.len(), aad_len_width);
    append_bytes(&mut buf, lp.as_slice());
    append_bytes(&mut buf, aad);
    append_bytes(&mut buf, &payload[NONCE_SIZE..payload.len()]);
    mac(kb, buf.as_slice())
}

/// Domain 0x0B format subkey.
pub fn derive_format_subkey(sk: &[u8], format_id: u8) -> (out: [u8; 32])
    ensures
        out@ == format_subkey(sk@, format_id),
{
    let mut buf: Vec<u8> = Vec::new();
    buf.push(0x0B);
    buf.push(format_id);
    assert(buf@ =~= seq![0x0Bu8, format_id]);
    mac(sk, buf.as_slice())
}

fn first_16(d: &[u8; 32]) -> (out: [u8; 16])
    ensures
        out@ == d@.subrange(0, 16),
{
    let mut out = [0u8; 16];
    let mut i: usize = 0;
    while i < 16
        invariant
            i <= 16,
            forall|j: int| 0 <= j < i ==> out@[j] == d@[j],
        decreases 16 - i,
    {
        out[i] = d[i];
        i = i + 1;
    }
    assert(out@ =~= d@.subrange(0, 16));
    out
}

/// Domain 0x0A synthetic nonce.
pub fn synthetic_nonce(sk_fmt: &[u8], aad: &[u8], message: &[u8]) -> (n: [u8; 16])
    ensures
        n@ == synthetic_nonce_spec(sk_fmt@, aad@, message@),
{
    let mut buf: Vec<u8> = Vec::new();
    buf.push(0x0A);
    proof {
        lemma_byte_pow_values();
    }
    let lp = be_len_prefix(aad.len(), 8);
    append_bytes(&mut buf, lp.as_slice());
    append_bytes(&mut buf, aad);
    append_bytes(&mut buf, message);
    let d = mac(sk_fmt, buf.as_slice());
    first_16(&d)
}

/// Domain 0x0E nonce of stream chunk `chunk_idx`.
pub fn derive_stream_v8_sub_nonce(sk_fmt: &[u8], nonce: &[u8], chunk_idx: u32) -> (n: [u8; 16])
    ensures
        n@ == sub_nonce_spec(sk_fmt@, nonce@, chunk_idx as nat),
{
    let buf = index_buffer(0x0E, nonce, chunk_idx);
    let d = mac(sk_fmt, buf.as_slice());
    first_16(&d)
}

/// Domain 0x0C tag of stream chunk `chunk_idx`.
pub fn compute_stream_v8_chunk_tag(
    sk_fmt: &[u8],
    nonce: &[u8],
    chunk_idx: u32,
    aad: &[u8],
    masked_chunk: &[u8],
) -> (tag: [u8; 32])
    ensures
        tag@ == chunk_tag_spec(sk_fmt@, nonce@, chunk_idx as nat, aad@, masked_chunk@),
{
    let mut buf = index_buffer(0x0C, nonce, chunk_idx);
    proof {
        lemma_byte_pow_values();
    }
    let lp = be_len_prefix(aad.len(), 8);
    append_bytes(&mut buf, lp.as_slice());
    append_bytes(&mut buf, aad);
    append_bytes(&mut buf, masked_chunk);
    mac(sk_fmt, buf.as_slice())
}

/// Domain 0x0D tag of a stream sentinel.
pub fn compute_stream_v8_sentinel_tag(
    sk_fmt: &[u8],
    nonce: &[u8],
    chunk_count: u32,
    aad: &[u8],
    total_real_cps: u64,
) -> (tag: [u8; 32])
    ensures
        tag@ == sentinel_tag_spec(
            sk_fmt@,
            nonce@,
            chunk_count as nat,
            aad@,
            total_real_cps as nat,
        ),
{
    let mut buf = index_buffer(0x0D, nonce, chunk_count);
    proof {
        lemma_byte_pow_values();
    }
    let lp = be_len_prefix(aad.len(), 8);
    append_bytes(&mut buf, lp.as_slice());
    append_bytes(&mut buf, aad);
    let tb = be_bytes(total_real_cps, 8);
    append_bytes(&mut buf, tb.as_slice());
    mac(sk_fmt, buf.as_slice())
}

} // verus!
