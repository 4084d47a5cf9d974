//! Tokens: the fixed-width wire encoding, and the v8 emission loop with its
//! lock-step decoder. Positions where the domain-0x00 oracle says "noise"
//! carry noise tokens, at most `MAX_NOISE_RUN` in a row; every other position
//! carries the next real token `c * k + a`.
use crate::bytes::{
    append_bytes, be_bytes, be_encode, be_read, be_value, byte_pow, lemma_be_encode_len,
    lemma_be_value_bound, lemma_be_value_encode, lemma_byte_pow_values,
};
use crate::derive::{
    addend, derive_addend, is_noise_pos_v8, is_noise_v8, noise_token, noise_token_at, real_token,
    real_token_at,
};
use crate::chars::all_scalar;
use crate::primitives::is_scalar;
use crate::text::{dec, push_dec, push_str};
use vstd::prelude::*;

verus! {

/// Width in bytes of every token on the wire.
pub const TOKEN_WIDTH: usize = 8;

/// Longest run of consecutive noise tokens in the v8 formats.
pub const MAX_NOISE_RUN: u64 = 19;

/// Big-endian concatenation of 8-byte token fields.
pub open spec fn fixed_encode(tokens: Seq<u64>) -> Seq<u8>
    decreases tokens.len(),
{
    if tokens.len() == 0 {
        Seq::empty()
    } else {
        fixed_encode(tokens.drop_last()) + be_encode(tokens.last() as nat, 8)
    }
}

pub open spec fn msg_blob_width(len: nat) -> Seq<char> {
    "fixed-width token blob length ("@ + dec(len) + ") is not a multiple of 8"@
}

/// The tokens of a blob, or why its length is wrong.
pub open spec fn fixed_decode(data: Seq<u8>) -> Result<Seq<u64>, Seq<char>> {
    if data.len() % 8 != 0 {
        Err(msg_blob_width(data.len()))
    } else {
        Ok(
            Seq::new(
                data.len() / 8,
                |i: int| be_value(data.subrange(8 * i, 8 * i + 8)) as u64,
            ),
        )
    }
}

pub proof fn lemma_fixed_encode_len(tokens: Seq<u64>)
    ensures
        fixed_encode(tokens).len() == 8 * tokens.len(),
    decreases tokens.len(),
{
    if tokens.len() > 0 {
        lemma_fixed_encode_len(tokens.drop_last());
        lemma_be_encode_len(tokens.last() as nat, 8);
    }
}

proof fn lemma_fixed_encode_field(tokens: Seq<u64>, i: int)
    requires
        0 <= i < tokens.len(),
    ensures
        fixed_encode(tokens).subrange(8 * i, 8 * i + 8) == be_encode(tokens[i] as nat, 8),
    decreases tokens.len(),
{
    lemma_fixed_encode_len(tokens);
    let d = tokens.drop_last();
    lemma_fixed_encode_len(d);
    lemma_be_encode_len(tokens.last() as nat, 8);
    if i == tokens.len() - 1 {
        assert(fixed_encode(tokens).subrange(8 * i, 8 * i + 8) =~= be_encode(
            tokens[i] as nat,
            8,
        ));
    } else {
        lemma_fixed_encode_field(d, i);
        assert(fixed_encode(tokens).subrange(8 * i, 8 * i + 8) =~= fixed_encode(d).subrange(
            8 * i,
            8 * i + 8,
        ));
    }
}

/// Decoding an encoding gives the tokens back.
pub proof fn lemma_fixed_decode_encode(tokens: Seq<u64>)
    ensures
        fixed_decode(fixed_encode(tokens)) == Ok::<Seq<u64>, Seq<char>>(tokens),
{
    lemma_fixed_encode_len(tokens);
    let e = fixed_encode(tokens);
    assert(e.len() % 8 == 0);
    let d = Seq::new(e.len() / 8, |i: int| be_value(e.subrange(8 * i, 8 * i + 8)) as u64);
    assert forall|i: int| 0 <= i < tokens.len() implies d[i] == tokens[i] by {
        lemma_fixed_encode_field(tokens, i);
        lemma_be_value_encode(tokens[i] as nat, 8);
        lemma_byte_pow_values();
    }
    assert(d =~= tokens);
}

pub fn fixed_encode_tokens(tokens: &[u64]) -> (out: Vec<u8>)
    ensures
        out@ == fixed_encode(tokens@),
{
    let mut out: Vec<u8> = Vec::new();
    let mut i: usize = 0;
    while i < tokens.len()
        invariant
            i <= tokens@.len(),
            out@ == fixed_encode(tokens@.subrange(0, i as int)),
        decreases tokens@.len() - i,
    {
        let b = be_bytes(tokens[i], 8);
        append_bytes(&mut out, b.as_slice());
        proof {
            assert(tokens@.subrange(0, i + 1).drop_last() =~= tokens@.subrange(0, i as int));
        }
        i = i + 1;
    }
    assert(tokens@.subrange(0, i as int) =~= tokens@);
    out
}

pub fn fixed_decode_tokens(data: &[u8]) -> (r: Result<Vec<u64>, String>)
    ensures
        match r {
            Ok(v) => fixed_decode(data@) == Ok::<Seq<u64>, Seq<char>>(v@),
            Err(e) => fixed_decode(data@) == Err::<Seq<u64>, Seq<char>>(e@),
        },
{
    if data.len() % TOKEN_WIDTH != 0 {
        let mut s = String::from_str("fixed-width token blob length (");
        push_dec(&mut s, data.len() as u64);
        push_str(&mut s, ") is not a multiple of 8");
        return Err(s);
    }
    let len = data.len();
    let n = len / TOKEN_WIDTH;
    let mut tokens: Vec<u64> = Vec::new();
    let mut i: usize = 0;
    while i < n
        invariant
            i <= n,
            n * 8 == len,
            len == data@.len(),
            tokens@ == Seq::new(
                i as nat,
                |j: int| be_value(data@.subrange(8 * j, 8 * j + 8)) as u64,
            ),
        decreases n - i,
    {
        let t = be_read(&data[8 * i..8 * i + 8]);
        tokens.push(t);
        proof {
            assert(tokens@ =~= Seq::new(
                (i + 1) as nat,
                |j: int| be_value(data@.subrange(8 * j, 8 * j + 8)) as u64,
            ));
        }
        i = i + 1;
    }
    Ok(tokens)
}

// ---------------------------------------------------------------------------
// v8 emission
// ---------------------------------------------------------------------------

/// Length of the noise run that starts at `p`, counted from offset `j`: the
/// first offset `>= j` that is not a noise position, or `MAX_NOISE_RUN`.
pub open spec fn run8(kb: Seq<u8>, nonce: Seq<u8>, theta: nat, p: nat, j: nat) -> nat
    decreases 19 - j,
{
    if j >= 19 || !is_noise_v8(kb, nonce, p + j, theta) {
        j
    } else {
        run8(kb, nonce, theta, p, j + 1)
    }
}

/// `r` noise tokens at positions `p .. p + r` under key element `k`.
pub open spec fn noise_tokens(kb: Seq<u8>, nonce: Seq<u8>, p: nat, r: nat, k: nat) -> Seq<u64> {
    Seq::new(r, |j: int| noise_token(kb, nonce, p + j as nat, k) as u64)
}

/// The key element that masks the `i`-th real token.
pub open spec fn key_at(primes: Seq<u64>, i: nat) -> nat {
    primes[(i % primes.len()) as int] as nat
}

/// Tokens emitted for the first `i` code points of `cps`, and the next
/// position.
pub open spec fn emit8(
    kb: Seq<u8>,
    nonce: Seq<u8>,
    theta: nat,
    primes: Seq<u64>,
    cps: Seq<u32>,
    i: nat,
) -> (Seq<u64>, nat)
    decreases i,
{
    if i == 0 {
        (Seq::empty(), 0)
    } else {
        let prev = emit8(kb, nonce, theta, primes, cps, (i - 1) as nat);
        let p = prev.1;
        let k = key_at(primes, (i - 1) as nat);
        let r = run8(kb, nonce, theta, p, 0);
        (
            prev.0 + noise_tokens(kb, nonce, p, r, k) + seq![
                real_token(kb, nonce, cps[i - 1] as nat, (i - 1) as nat, k) as u64,
            ],
            p + r + 1,
        )
    }
}

/// Every v8 token stream, for `L` real tokens, has exactly `20 L` tokens:
/// after the last real token, noise tokens fill it up.
pub open spec fn tokens8(
    kb: Seq<u8>,
    nonce: Seq<u8>,
    theta: nat,
    primes: Seq<u64>,
    cps: Seq<u32>,
) -> Seq<u64> {
    let e = emit8(kb, nonce, theta, primes, cps, cps.len());
    e.0 + noise_tokens(
        kb,
        nonce,
        e.1,
        (20 * cps.len() - e.1) as nat,
        key_at(primes, cps.len()),
    )
}

/// Key elements fit the token arithmetic: at least 2, below `2^32`.
pub open spec fn token_primes(primes: Seq<u64>) -> bool {
    &&& primes.len() > 0
    &&& forall|i: int| 0 <= i < primes.len() ==> 2 <= #[trigger] primes[i] <= 0xFFFF_FFFF
}

proof fn lemma_run8_bound(kb: Seq<u8>, nonce: Seq<u8>, theta: nat, p: nat, j: nat)
    ensures
        j <= 19 ==> j <= run8(kb, nonce, theta, p, j) <= 19,
    decreases 19 - j,
{
    if j < 19 && is_noise_v8(kb, nonce, p + j, theta) {
        lemma_run8_bound(kb, nonce, theta, p, j + 1);
    }
}

pub proof fn lemma_emit8_shape(
    kb: Seq<u8>,
    nonce: Seq<u8>,
    theta: nat,
    primes: Seq<u64>,
    cps: Seq<u32>,
    i: nat,
)
    ensures
        emit8(kb, nonce, theta, primes, cps, i).0.len() == emit8(kb, nonce, theta, primes, cps, i).1,
        emit8(kb, nonce, theta, primes, cps, i).1 <= 20 * i,
        i > 0 ==> emit8(kb, nonce, theta, primes, cps, i).1 >= i,
    decreases i,
{
    if i > 0 {
        lemma_emit8_shape(kb, nonce, theta, primes, cps, (i - 1) as nat);
        let p = emit8(kb, nonce, theta, primes, cps, (i - 1) as nat).1;
        lemma_run8_bound(kb, nonce, theta, p, 0);
    }
}

/// A v8 token stream holds exactly `20` tokens per real token.
pub proof fn lemma_tokens8_len(kb: Seq<u8>, nonce: Seq<u8>, theta: nat, primes: Seq<u64>, cps: Seq<u32>)
    ensures
        tokens8(kb, nonce, theta, primes, cps).len() == 20 * cps.len(),
{
    lemma_emit8_shape(kb, nonce, theta, primes, cps, cps.len());
}

/// Emission of the code points `padded` (v8): noise runs capped at
/// `MAX_NOISE_RUN`, then filled with noise to exactly `20 * padded.len()`
/// tokens.
pub fn emit_tokens_v8(kb: &[u8], nonce: &[u8], theta: u64, primes: &[u64], padded: &[u32]) -> (out:
    Vec<u64>)
    requires
        token_primes(primes@),
        padded@.len() <= 0x10_0000,
    ensures
        out@ == tokens8(kb@, nonce@, theta as nat, primes@, padded@),
        out@.len() == 20 * padded@.len(),
{
    let kk = primes.len() as u64;
    let mut cypher: Vec<u64> = Vec::new();
    let mut real_idx: u64 = 0;
    let mut ct_pos: u64 = 0;
    let n = padded.len();
    while real_idx < n as u64
        invariant
            token_primes(primes@),
            kk == primes@.len(),
            n == padded@.len() <= 0x10_0000,
            real_idx <= n,
            cypher@ == emit8(kb@, nonce@, theta as nat, primes@, padded@, real_idx as nat).0,
            ct_pos == emit8(kb@, nonce@, theta as nat, primes@, padded@, real_idx as nat).1,
            ct_pos <= 20 * real_idx,
        decreases n - real_idx,
    {
        let ghost p = ct_pos as nat;
        let ghost before = cypher@;
        let c = padded[real_idx as usize];
        let k = primes[(real_idx % kk) as usize];
        let mut noise_run: u64 = 0;
        proof {
            lemma_run8_bound(kb@, nonce@, theta as nat, p, 0);
        }
        while noise_run < MAX_NOISE_RUN && is_noise_pos_v8(kb, nonce, ct_pos, theta)
            invariant
                token_primes(primes@),
                2 <= k <= 0xFFFF_FFFF,
                noise_run <= 19,
                ct_pos == p + noise_run,
                p <= 20 * real_idx,
                real_idx < n <= 0x10_0000,
                cypher@ == before + noise_tokens(kb@, nonce@, p, noise_run as nat, k as nat),
                run8(kb@, nonce@, theta as nat, p, 0) == run8(
                    kb@,
                    nonce@,
                    theta as nat,
                    p,
                    noise_run as nat,
                ),
            decreases 19 - noise_run,
        {
            let t = noise_token_at(kb, nonce, ct_pos, k);
            cypher.push(t);
            proof {
                assert(noise_tokens(kb@, nonce@, p, (noise_run + 1) as nat, k as nat) =~= noise_tokens(
                    kb@,
                    nonce@,
                    p,
                    noise_run as nat,
                    k as nat,
                ).push(t));
            }
            ct_pos = ct_pos + 1;
            noise_run = noise_run + 1;
        }
        proof {
            assert(run8(kb@, nonce@, theta as nat, p, noise_run as nat) == noise_run);
        }
        let t = real_token_at(kb, nonce, c, real_idx, k);
        cypher.push(t);
        ct_pos = ct_pos + 1;
        real_idx = real_idx + 1;
        proof {
            let e = emit8(kb@, nonce@, theta as nat, primes@, padded@, real_idx as nat);
            assert(cypher@ =~= e.0);
        }
    }
    proof {
        lemma_emit8_shape(kb@, nonce@, theta as nat, primes@, padded@, n as nat);
    }
    let ceiling: u64 = (n as u64) * 20;
    let k = primes[(real_idx % kk) as usize];
    let ghost e = emit8(kb@, nonce@, theta as nat, primes@, padded@, n as nat);
    while ct_pos < ceiling
        invariant
            2 <= k <= 0xFFFF_FFFF,
            k as nat == key_at(primes@, n as nat),
            e.1 <= ct_pos <= ceiling,
            ceiling == 20 * n,
            cypher@ == e.0 + noise_tokens(kb@, nonce@, e.1, (ct_pos - e.1) as nat, k as nat),
        decreases ceiling - ct_pos,
    {
        let t = noise_token_at(kb, nonce, ct_pos, k);
        cypher.push(t);
        proof {
            assert(noise_tokens(kb@, nonce@, e.1, (ct_pos + 1 - e.1) as nat, k as nat) =~= noise_tokens(
                kb@,
                nonce@,
                e.1,
                (ct_pos - e.1) as nat,
                k as nat,
            ).push(t));
        }
        ct_pos = ct_pos + 1;
    }
    cypher
}

// ---------------------------------------------------------------------------
// v8 decoding
// ---------------------------------------------------------------------------

/// Why a token stream does not decode.
#[derive(Debug, Clone, Copy, PartialEq, Eq, Structural)]
pub enum TokenFailure {
    /// The stream ended where another real token was due.
    Truncated { pos: u64, real_idx: u64, noise_run: u64 },
    /// The token at `pos` is not `c * k + a` for the expected `k` and `a`.
    NotToken { pos: u64, k: u64 },
    /// The recovered value at `pos` is not a Unicode scalar value.
    NotScalar { cp: u64, pos: u64 },
}

/// Noise run the decoder skips from `p` in a stream of `n` tokens, counted
/// from offset `j`.
pub open spec fn dec_run8(kb: Seq<u8>, nonce: Seq<u8>, theta: nat, n: nat, p: nat, j: nat) -> nat
    decreases 19 - j,
{
    if j >= 19 || p + j >= n || !is_noise_v8(kb, nonce, p + j, theta) {
        j
    } else {
        dec_run8(kb, nonce, theta, n, p, j + 1)
    }
}

/// The lock-step decoder from state (`i` real tokens recovered into `acc`,
/// next position `p`) until `count` real tokens are recovered.
pub open spec fn dec8(
    kb: Seq<u8>,
    nonce: Seq<u8>,
    theta: nat,
    primes: Seq<u64>,
    toks: Seq<u64>,
    count: nat,
    i: nat,
    p: nat,
    acc: Seq<u32>,
) -> Result<Seq<u32>, TokenFailure>
    decreases count - i,
{
    if i >= count {
        Ok(acc)
    } else {
        let r = dec_run8(kb, nonce, theta, toks.len(), p, 0);
        let q = p + r;
        if q >= toks.len() {
            Err(TokenFailure::Truncated { pos: q as u64, real_idx: i as u64, noise_run: r as u64 })
        } else {
            let k = key_at(primes, i);
            let a = addend(kb, nonce, i, k);
            let t = toks[q as int] as nat;
            if t < a || (t - a) % (k as int) != 0 {
                Err(TokenFailure::NotToken { pos: q as u64, k: k as u64 })
            } else {
                let cp = ((t - a) / (k as int)) as nat;
                if !is_scalar(cp) {
                    Err(TokenFailure::NotScalar { cp: cp as u64, pos: q as u64 })
                } else {
                    dec8(kb, nonce, theta, primes, toks, count, i + 1, q + 1, acc.push(cp as u32))
                }
            }
        }
    }
}

proof fn lemma_dec_run8_bound(kb: Seq<u8>, nonce: Seq<u8>, theta: nat, n: nat, p: nat, j: nat)
    ensures
        j <= 19 ==> j <= dec_run8(kb, nonce, theta, n, p, j) <= 19,
        p + j <= n ==> p + dec_run8(kb, nonce, theta, n, p, j) <= n,
    decreases 19 - j,
{
    if !(j >= 19 || p + j >= n || !is_noise_v8(kb, nonce, p + j, theta)) {
        lemma_dec_run8_bound(kb, nonce, theta, n, p, j + 1);
    }
}

/// Lock-step decoding of `count` real tokens (v8 formats).
pub fn decode_tokens_v8(
    kb: &[u8],
    nonce: &[u8],
    theta: u64,
    primes: &[u64],
    tokens: &[u64],
    count: u64,
) -> (r: Result<Vec<u32>, TokenFailure>)
    requires
        token_primes(primes@),
    ensures
        match r {
            Ok(v) => dec8(kb@, nonce@, theta as nat, primes@, tokens@, count as nat, 0, 0, seq![])
                == Ok::<Seq<u32>, TokenFailure>(v@),
            Err(f) => dec8(kb@, nonce@, theta as nat, primes@, tokens@, count as nat, 0, 0, seq![])
                == Err::<Seq<u32>, TokenFailure>(f),
        },
{
    let kk = primes.len() as u64;
    let n = tokens.len();
    let mut out: Vec<u32> = Vec::new();
    let mut real_idx: u64 = 0;
    let mut ct_pos: usize = 0;
    while real_idx < count
        invariant
            token_primes(primes@),
            kk == primes@.len(),
            n == tokens@.len(),
            ct_pos <= n,
            dec8(kb@, nonce@, theta as nat, primes@, tokens@, count as nat, real_idx as nat, ct_pos as nat, out@)
                == dec8(kb@, nonce@, theta as nat, primes@, tokens@, count as nat, 0, 0, seq![]),
        decreases count - real_idx,
    {
        let ghost p = ct_pos as nat;
        let mut noise_run: u64 = 0;
        proof {
            lemma_dec_run8_bound(kb@, nonce@, theta as nat, n as nat, p, 0);
        }
        while noise_run < MAX_NOISE_RUN && ct_pos < n && is_noise_pos_v8(
            kb,
            nonce,
            ct_pos as u64,
            theta,
        )
            invariant
                noise_run <= 19,
                ct_pos == p + noise_run,
                ct_pos <= n,
                n == tokens@.len(),
                dec_run8(kb@, nonce@, theta as nat, n as nat, p, 0) == dec_run8(
                    kb@,
                    nonce@,
                    theta as nat,
                    n as nat,
                    p,
                    noise_run as nat,
                ),
            decreases 19 - noise_run,
        {
            ct_pos = ct_pos + 1;
            noise_run = noise_run + 1;
        }
        proof {
            assert(dec_run8(kb@, nonce@, theta as nat, n as nat, p, noise_run as nat) == noise_run);
        }
        if ct_pos >= n {
            return Err(
                TokenFailure::Truncated {
                    pos: ct_pos as u64,
                    real_idx: real_idx,
                    noise_run: noise_run,
                },
            );
        }
        let k = primes[(real_idx % kk) as usize];
        let a = derive_addend(kb, nonce, real_idx, k);
        let token = tokens[ct_pos];
        if token < a || (token - a) % k != 0 {
            return Err(TokenFailure::NotToken { pos: ct_pos as u64, k: k });
        }
        let cp = (token - a) / k;
        if cp > 0x10FFFF || (0xD800 <= cp && cp <= 0xDFFF) {
            return Err(TokenFailure::NotScalar { cp: cp, pos: ct_pos as u64 });
        }
        out.push(cp as u32);
        ct_pos = ct_pos + 1;
        real_idx = real_idx + 1;
    }
    Ok(out)
}

// ---------------------------------------------------------------------------
// The decoder inverts the emitter
// ---------------------------------------------------------------------------

proof fn lemma_emit8_step(
    kb: Seq<u8>,
    nonce: Seq<u8>,
    theta: nat,
    primes: Seq<u64>,
    cps: Seq<u32>,
    i: nat,
)
    ensures
        emit8(kb, nonce, theta, primes, cps, i + 1).1 == emit8(kb, nonce, theta, primes, cps, i).1
            + run8(kb, nonce, theta, emit8(kb, nonce, theta, primes, cps, i).1, 0) + 1,
        emit8(kb, nonce, theta, primes, cps, i + 1).0 == emit8(kb, nonce, theta, primes, cps, i).0
            + noise_tokens(
            kb,
            nonce,
            emit8(kb, nonce, theta, primes, cps, i).1,
            run8(kb, nonce, theta, emit8(kb, nonce, theta, primes, cps, i).1, 0),
            key_at(primes, i),
        ) + seq![real_token(kb, nonce, cps[i as int] as nat, i, key_at(primes, i)) as u64],
{
}

proof fn lemma_emit8_mono(
    kb: Seq<u8>,
    nonce: Seq<u8>,
    theta: nat,
    primes: Seq<u64>,
    cps: Seq<u32>,
    i: nat,
    l: nat,
)
    requires
        i <= l,
    ensures
        emit8(kb, nonce, theta, primes, cps, i).1 <= emit8(kb, nonce, theta, primes, cps, l).1,
    decreases l - i,
{
    if i < l {
        lemma_emit8_step(kb, nonce, theta, primes, cps, i);
        lemma_emit8_mono(kb, nonce, theta, primes, cps, i + 1, l);
    }
}

proof fn lemma_emit8_prefix(
    kb: Seq<u8>,
    nonce: Seq<u8>,
    theta: nat,
    primes: Seq<u64>,
    cps: Seq<u32>,
    i: nat,
    l: nat,
)
    requires
        i <= l,
    ensures
        emit8(kb, nonce, theta, primes, cps, l).0.subrange(
            0,
            emit8(kb, nonce, theta, primes, cps, i).1 as int,
        ) == emit8(kb, nonce, theta, primes, cps, i).0,
    decreases l - i,
{
    lemma_emit8_shape(kb, nonce, theta, primes, cps, i);
    lemma_emit8_shape(kb, nonce, theta, primes, cps, l);
    if i < l {
        lemma_emit8_prefix(kb, nonce, theta, primes, cps, i + 1, l);
        lemma_emit8_shape(kb, nonce, theta, primes, cps, i + 1);
        let a = emit8(kb, nonce, theta, primes, cps, i);
        let b = emit8(kb, nonce, theta, primes, cps, i + 1);
        let c = emit8(kb, nonce, theta, primes, cps, l);
        lemma_emit8_step(kb, nonce, theta, primes, cps, i);
        lemma_emit8_mono(kb, nonce, theta, primes, cps, i + 1, l);
        assert(b.0.subrange(0, a.1 as int) =~= a.0);
        assert(c.0.subrange(0, b.1 as int) == b.0);
        assert(c.0.subrange(0, a.1 as int) =~= b.0.subrange(0, a.1 as int));
    }
}

proof fn lemma_dec_run_matches(kb: Seq<u8>, nonce: Seq<u8>, theta: nat, n: nat, p: nat, j: nat)
    requires
        j <= 19,
        p + run8(kb, nonce, theta, p, j) < n,
    ensures
        dec_run8(kb, nonce, theta, n, p, j) == run8(kb, nonce, theta, p, j),
    decreases 19 - j,
{
    if j < 19 && is_noise_v8(kb, nonce, p + j, theta) {
        lemma_run8_bound(kb, nonce, theta, p, j + 1);
        lemma_dec_run_matches(kb, nonce, theta, n, p, j + 1);
    }
}

pub proof fn lemma_recover(c: nat, k: nat, a: nat)
    requires
        k >= 2,
        1 <= a < k,
    ensures
        c * k + a >= a,
        ((c * k + a) - a) % (k as int) == 0,
        ((c * k + a) - a) / (k as int) == c,
{
    vstd::arithmetic::div_mod::lemma_mod_multiples_basic(c as int, k as int);
    vstd::arithmetic::div_mod::lemma_div_multiples_vanish(c as int, k as int);
    assert(c * k == k * c) by (nonlinear_arith);
}

pub proof fn lemma_addend_range(kb: Seq<u8>, nonce: Seq<u8>, i: nat, k: nat)
    requires
        k >= 2,
    ensures
        1 <= addend(kb, nonce, i, k) < k,
{
}

/// Decoding `count = |cps|` real tokens from an emitted stream (with any
/// continuation `extra`) recovers `cps`, from every intermediate state.
pub proof fn lemma_dec8_emit8(
    kb: Seq<u8>,
    nonce: Seq<u8>,
    theta: nat,
    primes: Seq<u64>,
    cps: Seq<u32>,
    extra: Seq<u64>,
    i: nat,
)
    requires
        token_primes(primes),
        all_scalar(cps),
        i <= cps.len(),
    ensures
        dec8(
            kb,
            nonce,
            theta,
            primes,
            emit8(kb, nonce, theta, primes, cps, cps.len()).0 + extra,
            cps.len(),
            i,
            emit8(kb, nonce, theta, primes, cps, i).1,
            cps.subrange(0, i as int),
        ) == Ok::<Seq<u32>, TokenFailure>(cps),
    decreases cps.len() - i,
{
    let l = cps.len();
    let toks = emit8(kb, nonce, theta, primes, cps, l).0 + extra;
    if i == l {
        assert(cps.subrange(0, i as int) =~= cps);
    } else {
        let a = emit8(kb, nonce, theta, primes, cps, i);
        let b = emit8(kb, nonce, theta, primes, cps, i + 1);
        let p = a.1;
        let r = run8(kb, nonce, theta, p, 0);
        lemma_emit8_shape(kb, nonce, theta, primes, cps, i);
        lemma_emit8_shape(kb, nonce, theta, primes, cps, i + 1);
        lemma_emit8_shape(kb, nonce, theta, primes, cps, l);
        lemma_emit8_prefix(kb, nonce, theta, primes, cps, i + 1, l);
        lemma_emit8_step(kb, nonce, theta, primes, cps, i);
        lemma_emit8_mono(kb, nonce, theta, primes, cps, i + 1, l);
        assert(b.1 == p + r + 1);
        let q = p + r;
        let cc = emit8(kb, nonce, theta, primes, cps, l);
        assert(cc.0.subrange(0, b.1 as int) == b.0);
        assert(q < cc.0.len());
        assert(toks[q as int] == cc.0[q as int]);
        let k = key_at(primes, i);
        let ki = (i % primes.len()) as int;
        assert(2 <= primes[ki] <= 0xFFFF_FFFF);
        let ad = addend(kb, nonce, i, k);
        lemma_addend_range(kb, nonce, i, k);
        let c = cps[i as int] as nat;
        assert(toks[q as int] == b.0[q as int]);
        assert(b.0[q as int] == real_token(kb, nonce, c, i, k) as u64);
        assert(c * k + ad < 0x1_0000_0000 * 0x1_0000_0000) by (nonlinear_arith)
            requires
                c < 0x1_0000_0000,
                k <= 0xFFFF_FFFF,
                ad < k,
        ;
        assert(toks[q as int] as nat == c * k + ad);
        lemma_recover(c, k, ad);
        lemma_run8_bound(kb, nonce, theta, p, 0);
        lemma_dec_run_matches(kb, nonce, theta, toks.len(), p, 0);
        assert(cps.subrange(0, i as int).push(c as u32) =~= cps.subrange(0, (i + 1) as int));
        lemma_dec8_emit8(kb, nonce, theta, primes, cps, extra, i + 1);
    }
}

/// A successful decoding holds `count` code points.
pub proof fn lemma_dec8_len(
    kb: Seq<u8>,
    nonce: Seq<u8>,
    theta: nat,
    primes: Seq<u64>,
    toks: Seq<u64>,
    count: nat,
    i: nat,
    p: nat,
    acc: Seq<u32>,
)
    requires
        i <= count,
        acc.len() == i,
    ensures
        dec8(kb, nonce, theta, primes, toks, count, i, p, acc) matches Ok(v) ==> v.len() == count,
    decreases count - i,
{
    if i < count {
        let r = dec_run8(kb, nonce, theta, toks.len(), p, 0);
        let q = p + r;
        if q < toks.len() {
            let k = key_at(primes, i);
            let a = addend(kb, nonce, i, k);
            let t = toks[q as int] as nat;
            if !(t < a || (t - a) % (k as int) != 0) {
                let cp = ((t - a) / (k as int)) as nat;
                lemma_dec8_len(kb, nonce, theta, primes, toks, count, i + 1, q + 1, acc.push(cp as u32));
            }
        }
    }
}

/// Whatever the decoder recovers is a sequence of Unicode scalar values.
pub proof fn lemma_dec8_scalar(
    kb: Seq<u8>,
    nonce: Seq<u8>,
    theta: nat,
    primes: Seq<u64>,
    toks: Seq<u64>,
    count: nat,
    i: nat,
    p: nat,
    acc: Seq<u32>,
)
    requires
        all_scalar(acc),
        dec8(kb, nonce, theta, primes, toks, count, i, p, acc) is Ok,
    ensures
        all_scalar(dec8(kb, nonce, theta, primes, toks, count, i, p, acc)->Ok_0),
    decreases count - i,
{
    if i < count {
        let r = dec_run8(kb, nonce, theta, toks.len(), p, 0);
        let q = p + r;
        let k = key_at(primes, i);
        let a = addend(kb, nonce, i, k);
        let t = toks[q as int] as nat;
        let cp = ((t - a) / (k as int)) as nat;
        let acc2 = acc.push(cp as u32);
        assert(all_scalar(acc2)) by {
            assert forall|j: int| 0 <= j < acc2.len() implies is_scalar(#[trigger] acc2[j] as nat) by {
                if j < acc.len() {
                    assert(acc2[j] == acc[j]);
                }
            }
        }
        lemma_dec8_scalar(kb, nonce, theta, primes, toks, count, i + 1, q + 1, acc2);
    }
}

/// The v8 decoder recovers what the v8 emitter encoded.
pub proof fn lemma_decode_tokens8(
    kb: Seq<u8>,
    nonce: Seq<u8>,
    theta: nat,
    primes: Seq<u64>,
    cps: Seq<u32>,
)
    requires
        token_primes(primes),
        all_scalar(cps),
    ensures
        dec8(
            kb,
            nonce,
            theta,
            primes,
            tokens8(kb, nonce, theta, primes, cps),
            cps.len(),
            0,
            0,
            seq![],
        ) == Ok::<Seq<u32>, TokenFailure>(cps),
{
    let e = emit8(kb, nonce, theta, primes, cps, cps.len());
    let extra = noise_tokens(
        kb,
        nonce,
        e.1,
        (20 * cps.len() - e.1) as nat,
        key_at(primes, cps.len()),
    );
    lemma_dec8_emit8(kb, nonce, theta, primes, cps, extra, 0);
    assert(cps.subrange(0, 0) =~= seq![]);
}

} // verus!
