//! Padding profiles, the padded block layout `be2(n) || message || pad`, and
//! its inverse.
use crate::derive::{derive_pad_cp, pad_cp};
use crate::chars::all_scalar;
use crate::primes::err_view;
use crate::primitives::is_scalar;
use crate::text::{dec, push_dec, push_str};
use vstd::arithmetic::power2::{lemma_pow2_strictly_increases, lemma_pow2_unfold, pow2};
use vstd::prelude::*;

verus! {

/// Smallest exponent of a reachable block size, `2^4`.
pub const PAD_MIN_EXP: u32 = 4;

/// Largest exponent of a reachable block size, `2^16`.
pub const PAD_MAX_EXP: u32 = 16;

/// Longest plaintext, in code points, that the two-code-point length prefix
/// can carry.
pub const MAX_PLAINTEXT_CODEPOINTS: usize = 0xFFFF;

/// How the padded block size is chosen from the message length. Decryption
/// does not need to know which profile was used.
#[derive(Debug, Clone, Copy, PartialEq, Eq, Structural)]
pub enum PadProfile {
    /// Smallest power of two strictly above `n`, at least 16.
    Bucket,
    /// `Bucket` thinned to every `g`-th exponent; `g` must divide 12.
    Coarse(u32),
    /// One fixed size `F`, a power of two in `[16, 65536]`; needs `n < F`.
    Frame(u32),
}

/// Number of significant bits of `n`.
pub open spec fn bits(n: nat) -> nat
    decreases n,
{
    if n == 0 {
        0
    } else {
        1 + bits(n / 2)
    }
}

/// The exponent of the bucket of an `n`-code-point message.
pub open spec fn bucket_exp(n: nat) -> nat {
    if bits(n) < 4 {
        4
    } else {
        bits(n)
    }
}

/// `F` is one of the reachable block sizes.
pub open spec fn reachable(f: nat) -> bool {
    exists|e: nat| 4 <= e <= 16 && #[trigger] pow2(e) == f
}

pub open spec fn msg_max_bucket(n: nat) -> Seq<char> {
    "message of "@ + dec(n)
        + " codepoints exceeds the maximum bucket 2^16 (CVF-31); pad_profile.block_size cannot produce a value in the normative reachable set."@
}

pub open spec fn msg_bad_stride(g: nat) -> Seq<char> {
    "coarse stride g="@ + dec(g) + " must divide 12."@
}

pub open spec fn msg_bad_frame(f: nat) -> Seq<char> {
    "frame size F="@ + dec(f) + " must be a power of two in [16, 65536]."@
}

pub open spec fn msg_frame_too_small(f: nat, n: nat) -> Seq<char> {
    "frame("@ + dec(f) + ") profile admits messages of at most "@ + dec((f - 1) as nat)
        + " codepoints; got "@ + dec(n) + ". Use a larger frame."@
}

/// The padded block size of an `n`-code-point message under `p`, or why
/// there is none.
#[verifier::opaque]
pub open spec fn block_size_spec(p: PadProfile, n: nat) -> Result<nat, Seq<char>> {
    if n >= 0x1_0000 {
        Err(msg_max_bucket(n))
    } else {
        match p {
            PadProfile::Bucket => Ok(pow2(bucket_exp(n))),
            PadProfile::Coarse(g) => {
                if g == 0 || 12u32 % g != 0 {
                    Err(msg_bad_stride(g as nat))
                } else {
                    let steps = ((bucket_exp(n) - 4) + g - 1) / (g as int);
                    Ok(pow2((4 + g * steps) as nat))
                }
            },
            PadProfile::Frame(f) => {
                if !reachable(f as nat) {
                    Err(msg_bad_frame(f as nat))
                } else if n >= f {
                    Err(msg_frame_too_small(f as nat, n))
                } else {
                    Ok(f as nat)
                }
            },
        }
    }
}

pub proof fn lemma_pow2_mono(a: nat, b: nat)
    requires
        a <= b,
    ensures
        pow2(a) <= pow2(b),
{
    if a < b {
        lemma_pow2_strictly_increases(a, b);
    }
}

pub proof fn lemma_bits_bound(n: nat)
    ensures
        n < pow2(bits(n)),
        n > 0 ==> pow2((bits(n) - 1) as nat) <= n,
    decreases n,
{
    vstd::arithmetic::power2::lemma2_to64();
    if n > 0 {
        lemma_bits_bound(n / 2);
        lemma_pow2_unfold(bits(n));
        assert(pow2(bits(n)) == 2 * pow2(bits(n / 2)));
        if n / 2 > 0 {
            lemma_pow2_unfold(bits(n / 2));
        }
    }
}

proof fn lemma_bits_small(n: nat)
    requires
        n < 0x1_0000,
    ensures
        bits(n) <= 16,
{
    lemma_bits_bound(n);
    vstd::arithmetic::power2::lemma2_to64();
    if bits(n) > 16 {
        lemma_pow2_mono(16, (bits(n) - 1) as nat);
    }
}

pub proof fn lemma_reachable_bounds(f: nat)
    requires
        reachable(f),
    ensures
        16 <= f <= 0x1_0000,
{
    let e = choose|e: nat| 4 <= e <= 16 && #[trigger] pow2(e) == f;
    vstd::arithmetic::power2::lemma2_to64();
    lemma_pow2_mono(4, e);
    lemma_pow2_mono(e, 16);
}

pub fn bit_length(n: usize) -> (r: u32)
    requires
        n < 0x1_0000,
    ensures
        r as nat == bits(n as nat),
        r <= 16,
{
    proof {
        lemma_bits_small(n as nat);
    }
    let mut m = n;
    let mut r: u32 = 0;
    while m > 0
        invariant
            r as nat + bits(m as nat) == bits(n as nat),
            bits(n as nat) <= 16,
        decreases m,
    {
        m = m / 2;
        r = r + 1;
    }
    r
}

/// `2^e` for `e <= 16`.
pub fn pow2_small(e: u32) -> (r: usize)
    requires
        e <= 16,
    ensures
        r as nat == pow2(e as nat),
{
    let mut r: usize = 1;
    let mut i: u32 = 0;
    proof {
        reveal(pow2);
        vstd::arithmetic::power2::lemma2_to64();
    }
    while i < e
        invariant
            i <= e <= 16,
            r as nat == pow2(i as nat),
        decreases e - i,
    {
        proof {
            lemma_pow2_unfold((i + 1) as nat);
            vstd::arithmetic::power2::lemma2_to64();
            lemma_pow2_strictly_increases((i + 1) as nat, 17);
        }
        r = r * 2;
        i = i + 1;
    }
    r
}

pub fn bucket_block_size(n: usize) -> (r: usize)
    requires
        n < 0x1_0000,
    ensures
        r as nat == pow2(bucket_exp(n as nat)),
{
    let b = bit_length(n);
    let e = if b < PAD_MIN_EXP {
        PAD_MIN_EXP
    } else {
        b
    };
    pow2_small(e)
}

/// The block size is a reachable size strictly above `n`.
pub proof fn lemma_bucket_above(n: nat)
    requires
        n < 0x1_0000,
    ensures
        n < pow2(bucket_exp(n)),
        4 <= bucket_exp(n) <= 16,
{
    lemma_bits_bound(n);
    lemma_bits_small(n);
    if bits(n) < 4 {
        lemma_pow2_strictly_increases(bits(n), 4);
    }
}

/// Whether `f` is one of the reachable block sizes `2^4, ..., 2^16`.
pub fn is_reachable_size(f: u64) -> (r: bool)
    ensures
        r == reachable(f as nat),
{
    let mut e: u32 = PAD_MIN_EXP;
    while e <= PAD_MAX_EXP
        invariant
            4 <= e <= 17,
            forall|j: nat| 4 <= j < e ==> #[trigger] pow2(j) != f,
        decreases 17 - e,
    {
        if pow2_small(e) as u64 == f {
            return true;
        }
        e = e + 1;
    }
    false
}

/// Every block size is a reachable size strictly above the message length.
pub proof fn lemma_block_size_reachable(p: PadProfile, n: nat)
    requires
        block_size_spec(p, n) is Ok,
    ensures
        reachable(block_size_spec(p, n)->Ok_0),
        n < block_size_spec(p, n)->Ok_0,
{
    reveal(block_size_spec);
    lemma_bucket_above(n);
    let e = bucket_exp(n);
    match p {
        PadProfile::Bucket => {
            assert(reachable(pow2(e)));
        },
        PadProfile::Coarse(g) => {
            let x = (e - 4) as int;
            let steps = (x + g - 1) / (g as int);
            assert(4 + g * steps <= 16 && 4 + g * steps >= e) by (nonlinear_arith)
                requires
                    0 <= x <= 12,
                    x == e - 4,
                    steps == (x + g - 1) / (g as int),
                    g > 0,
                    12int % (g as int) == 0,
            {
                let q = 12int / (g as int);
                assert(12 == q * g);
                assert(steps * g <= x + g - 1);
                assert(steps * g > x - 1) by {
                    assert(steps * g + (x + g - 1) % (g as int) == x + g - 1);
                }
                assert(steps <= q) by {
                    if steps > q {
                        assert(steps * g >= (q + 1) * g);
                    }
                }
            }
            let ex = (4 + g * steps) as nat;
            lemma_pow2_mono(e, ex);
            assert(reachable(pow2(ex)));
        },
        PadProfile::Frame(f) => {},
    }
}

impl PadProfile {
    /// Padded block size `B` for an `n`-code-point message under this profile.
    /// Every `Ok` value is one of `2^4, ..., 2^16` and exceeds `n`.
    pub fn block_size(self, n: usize) -> (r: Result<usize, String>)
        ensures
            match r {
                Ok(b) => block_size_spec(self, n as nat) == Ok::<nat, Seq<char>>(b as nat),
                Err(e) => block_size_spec(self, n as nat) == Err::<nat, Seq<char>>(e@),
            },
            r is Ok ==> reachable(r->Ok_0 as nat) && n < r->Ok_0,
    {
        reveal(block_size_spec);
        if n >= 0x1_0000 {
            let mut s = String::from_str("message of ");
            push_dec(&mut s, n as u64);
            push_str(
                &mut s,
                " codepoints exceeds the maximum bucket 2^16 (CVF-31); pad_profile.block_size cannot produce a value in the normative reachable set.",
            );
            return Err(s);
        }
        proof {
            lemma_bucket_above(n as nat);
        }
        let b = bit_length(n);
        let e = if b < PAD_MIN_EXP {
            PAD_MIN_EXP
        } else {
            b
        };
        match self {
            PadProfile::Bucket => {
                let r = bucket_block_size(n);
                assert(reachable(r as nat)) by {
                    assert(pow2(bucket_exp(n as nat)) == r);
                }
                Ok(r)
            },
            PadProfile::Coarse(g) => {
                if g == 0 || 12 % g != 0 {
                    let mut s = String::from_str("coarse stride g=");
                    push_dec(&mut s, g as u64);
                    push_str(&mut s, " must divide 12.");
                    return Err(s);
                }
                assert(g <= 12) by {
                    if g > 12 {
                        vstd::arithmetic::div_mod::lemma_small_mod(12, g as nat);
                    }
                }
                let steps = (e - PAD_MIN_EXP + g - 1) / g;
                let ghost x = (e - 4) as int;
                assert(4 + g * steps <= 16 && 4 + g * steps >= e) by (nonlinear_arith)
                    requires
                        0 <= x <= 12,
                        x == e - 4,
                        steps == (x + g - 1) / (g as int),
                        g > 0,
                        12int % (g as int) == 0,
                {
                    let q = 12int / (g as int);
                    assert(12 == q * g);
                    assert(steps * g <= x + g - 1);
                    assert(steps * g > x - 1) by {
                        assert(steps * g + (x + g - 1) % (g as int) == x + g - 1);
                    }
                    assert(steps <= q) by {
                        if steps > q {
                            assert(steps * g >= (q + 1) * g);
                        }
                    }
                }
                let ex = PAD_MIN_EXP + g * steps;
                let r = pow2_small(ex);
                proof {
                    lemma_pow2_mono(bucket_exp(n as nat), ex as nat);
                    assert(reachable(r as nat)) by {
                        assert(pow2(ex as nat) == r);
                    }
                }
                Ok(r)
            },
            PadProfile::Frame(f) => {
                if !is_reachable_size(f as u64) {
                    let mut s = String::from_str("frame size F=");
                    push_dec(&mut s, f as u64);
                    push_str(&mut s, " must be a power of two in [16, 65536].");
                    return Err(s);
                }
                proof {
                    lemma_reachable_bounds(f as nat);
                }
                if n >= f as usize {
                    let mut s = String::from_str("frame(");
                    push_dec(&mut s, f as u64);
                    push_str(&mut s, ") profile admits messages of at most ");
                    push_dec(&mut s, (f - 1) as u64);
                    push_str(&mut s, " codepoints; got ");
                    push_dec(&mut s, n as u64);
                    push_str(&mut s, ". Use a larger frame.");
                    return Err(s);
                }
                Ok(f as usize)
            },
        }
    }
}

/// `be2(n) || msg || pad[0..B-n]`, `n = |msg|`.
pub open spec fn pad_spec(msg: Seq<u32>, kb: Seq<u8>, nonce: Seq<u8>, block_size: nat) -> Seq<u32> {
    seq![((msg.len() / 256) % 256) as u32, (msg.len() % 256) as u32] + msg + Seq::new(
        (block_size - msg.len()) as nat,
        |i: int| pad_cp(kb, nonce, i as nat) as u32,
    )
}

/// Padding to `block_size` code points (domain 0x06).
pub fn pad_to_block(msg: &[u32], kb: &[u8], nonce: &[u8], block_size: usize) -> (out: Vec<u32>)
    requires
        msg@.len() < block_size <= 0x1_0000,
    ensures
        out@ == pad_spec(msg@, kb@, nonce@, block_size as nat),
{
    let n = msg.len();
    let mut out: Vec<u32> = Vec::new();
    out.push(((n / 256) % 256) as u32);
    out.push((n % 256) as u32);
    let mut j: usize = 0;
    while j < n
        invariant
            j <= n == msg@.len(),
            out@ == seq![((n / 256) % 256) as u32, (n % 256) as u32] + msg@.subrange(0, j as int),
        decreases n - j,
    {
        out.push(msg[j]);
        proof {
            assert(msg@.subrange(0, j + 1) =~= msg@.subrange(0, j as int).push(msg@[j as int]));
        }
        j = j + 1;
    }
    let pad_len = block_size - n;
    let mut i: usize = 0;
    while i < pad_len
        invariant
            i <= pad_len == block_size - n,
            block_size <= 0x1_0000,
            n == msg@.len(),
            out@ == seq![((n / 256) % 256) as u32, (n % 256) as u32] + msg@ + Seq::new(
                i as nat,
                |t: int| pad_cp(kb@, nonce@, t as nat) as u32,
            ),
        decreases pad_len - i,
    {
        let c = derive_pad_cp(kb, nonce, i as u32);
        out.push(c);
        proof {
            assert(Seq::new((i + 1) as nat, |t: int| pad_cp(kb@, nonce@, t as nat) as u32)
                =~= Seq::new(i as nat, |t: int| pad_cp(kb@, nonce@, t as nat) as u32).push(c));
        }
        i = i + 1;
    }
    assert(msg@.subrange(0, n as int) =~= msg@);
    out
}

/// Padding under the default profile.
pub fn pad_message(msg: &[u32], kb: &[u8], nonce: &[u8]) -> (out: Vec<u32>)
    requires
        msg@.len() <= MAX_PLAINTEXT_CODEPOINTS,
    ensures
        out@ == pad_spec(msg@, kb@, nonce@, pow2(bucket_exp(msg@.len()))),
{
    proof {
        lemma_bucket_above(msg@.len());
        vstd::arithmetic::power2::lemma2_to64();
        lemma_pow2_mono(bucket_exp(msg@.len()), 16);
    }
    let b = bucket_block_size(msg.len());
    pad_to_block(msg, kb, nonce, b)
}

pub open spec fn msg_unpad_short() -> Seq<char> {
    "Padded message too short to contain length prefix."@
}

pub open spec fn msg_unpad_prefix(a: nat, b: nat) -> Seq<char> {
    "Malformed length prefix: codepoints ("@ + dec(a) + ", "@ + dec(b)
        + ") are not byte-valued (CVF-43)."@
}

pub open spec fn msg_unpad_len(n: nat, avail: nat) -> Seq<char> {
    "Length prefix ("@ + dec(n) + ") exceeds available data ("@ + dec(avail) + " codepoints)."@
}

/// The message carried by a padded block, or why there is none.
pub open spec fn unpad_spec(padded: Seq<u32>) -> Result<Seq<u32>, Seq<char>> {
    if padded.len() < 2 {
        Err(msg_unpad_short())
    } else if padded[0] > 0xFF || padded[1] > 0xFF {
        Err(msg_unpad_prefix(padded[0] as nat, padded[1] as nat))
    } else {
        let n = padded[0] * 256 + padded[1];
        if 2 + n > padded.len() {
            Err(msg_unpad_len(n as nat, (padded.len() - 2) as nat))
        } else {
            Ok(padded.subrange(2, 2 + n))
        }
    }
}

/// Recovers the message from a padded block, checking the length prefix
/// against the data present.
pub fn unpad_message(padded: &[u32]) -> (r: Result<Vec<u32>, String>)
    ensures
        match r {
            Ok(v) => unpad_spec(padded@) == Ok::<Seq<u32>, Seq<char>>(v@),
            Err(e) => unpad_spec(padded@) == Err::<Seq<u32>, Seq<char>>(e@),
        },
{
    if padded.len() < 2 {
        return Err(String::from_str("Padded message too short to contain length prefix."));
    }
    if padded[0] > 0xFF || padded[1] > 0xFF {
        let mut s = String::from_str("Malformed length prefix: codepoints (");
        push_dec(&mut s, padded[0] as u64);
        push_str(&mut s, ", ");
        push_dec(&mut s, padded[1] as u64);
        push_str(&mut s, ") are not byte-valued (CVF-43).");
        return Err(s);
    }
    let n = (padded[0] as usize) * 256 + padded[1] as usize;
    if n > padded.len() - 2 {
        let mut s = String::from_str("Length prefix (");
        push_dec(&mut s, n as u64);
        push_str(&mut s, ") exceeds available data (");
        push_dec(&mut s, (padded.len() - 2) as u64);
        push_str(&mut s, " codepoints).");
        return Err(s);
    }
    let mut out: Vec<u32> = Vec::new();
    let mut i: usize = 0;
    let len = padded.len();
    while i < n
        invariant
            i <= n,
            len == padded@.len(),
            2 + n <= len,
            out@ == padded@.subrange(2, 2 + i),
        decreases n - i,
    {
        out.push(padded[2 + i]);
        proof {
            assert(padded@.subrange(2, 2 + i + 1) =~= padded@.subrange(2, 2 + i).push(
                padded@[2 + i],
            ));
        }
        i = i + 1;
    }
    Ok(out)
}

/// A padded block holds `block_size + 2` Unicode scalar values.
pub proof fn lemma_pad_spec_shape(msg: Seq<u32>, kb: Seq<u8>, nonce: Seq<u8>, block_size: nat)
    requires
        msg.len() < block_size,
        all_scalar(msg),
    ensures
        pad_spec(msg, kb, nonce, block_size).len() == block_size + 2,
        all_scalar(pad_spec(msg, kb, nonce, block_size)),
{
    let p = pad_spec(msg, kb, nonce, block_size);
    assert forall|i: int| 0 <= i < p.len() implies is_scalar(#[trigger] p[i] as nat) by {
        if i >= 2 && i < 2 + msg.len() {
            assert(p[i] == msg[i - 2]);
        }
    }
}

/// Unpadding gives back the padded message, for every block size above it.
pub proof fn lemma_unpad_pad(msg: Seq<u32>, kb: Seq<u8>, nonce: Seq<u8>, block_size: nat)
    requires
        msg.len() <= MAX_PLAINTEXT_CODEPOINTS,
        msg.len() < block_size,
    ensures
        unpad_spec(pad_spec(msg, kb, nonce, block_size)) == Ok::<Seq<u32>, Seq<char>>(msg),
{
    let p = pad_spec(msg, kb, nonce, block_size);
    let n = msg.len();
    assert(p[0] == ((n / 256) % 256) as u32);
    assert(p[1] == (n % 256) as u32);
    assert((n / 256) % 256 == n / 256);
    assert(p[0] * 256 + p[1] == n);
    assert(p.subrange(2, 2 + n as int) =~= msg);
}

} // verus!
