//! The legacy (v7) noise threshold, evaluated exactly in integers.
//!
//! The v7 format decides noise positions with IEEE-754 binary64 arithmetic:
//! a position is noise when `x / 2^64 < 0.75 + (y / 2^64) * (0.99 - 0.75)`,
//! each operation rounded to nearest, ties to even. Every operand here is a
//! dyadic rational, so each rounding can be replayed on integers:
//!
//! * `u64 as f64` keeps the 53 most significant bits (`round_sig`), and the
//!   division by `2^64` is exact;
//! * `0.99 - 0.75` is exact (Sterbenz) and equals `DELTA_M * 2^-53`;
//! * the product `t * delta` is `round_sig(R(y) * DELTA_M, 53) * 2^-117`;
//! * the sum lies in `[0.5, 1)`, whose spacing is `2^-53 = 2^64 * 2^-117`,
//!   so it is `round_div_even(3 * 2^115 + P, 2^64) * 2^-53`;
//! * the comparison is then `R(x) < pm * 2^11`, all in units of `2^-64`.
use crate::derive::{mac, pos_input};
use crate::bytes::be_u64_of;
use crate::padding::{bits, lemma_bits_bound, lemma_pow2_mono};
use crate::primitives::digest;
use vstd::arithmetic::power2::{lemma2_to64, lemma_pow2_adds, lemma_pow2_unfold, pow2};
use vstd::prelude::*;

verus! {

/// Significand of `0.99 - 0.75` in binary64, in units of `2^-53`.
pub const DELTA_M: u128 = 2_161_727_821_137_838;

/// `n` rounded to `p` significant bits, ties to even.
pub open spec fn round_sig(n: nat, p: nat) -> nat {
    if bits(n) <= p {
        n
    } else {
        let d = pow2((bits(n) - p) as nat);
        let q = n / d;
        let r = n % d;
        let h = d / 2;
        (if r > h || (r == h && q % 2 == 1) {
            q + 1
        } else {
            q
        }) * d
    }
}

/// `s / d` rounded to the nearest integer, ties to even.
pub open spec fn round_div_even(s: nat, d: nat) -> nat {
    let q = s / d;
    let r = s % d;
    let h = d / 2;
    if r > h || (r == h && q % 2 == 1) {
        q + 1
    } else {
        q
    }
}

/// The v7 noise threshold for the 64-bit draw `y`, in units of `2^-64`.
pub open spec fn v7_threshold(y: nat) -> nat {
    round_div_even(
        3 * pow2(115) + round_sig(round_sig(y, 53) * (DELTA_M as nat), 53),
        pow2(64),
    ) * pow2(11)
}

/// Domain 0x02, v7: the noise threshold of a nonce.
pub open spec fn noise_p_v7(kb: Seq<u8>, nonce: Seq<u8>) -> nat {
    v7_threshold(be_u64_of(digest(kb, seq![0x02u8] + nonce)))
}

/// Domain 0x00, v7: position `p` carries a noise token.
pub open spec fn is_noise_v7(kb: Seq<u8>, nonce: Seq<u8>, p: nat, thr: nat) -> bool {
    round_sig(be_u64_of(digest(kb, pos_input(0x00, nonce, p))), 53) < thr
}

proof fn lemma_pow2_values()
    ensures
        pow2(11) == 0x800,
        pow2(51) == 0x8_0000_0000_0000,
        pow2(52) == 0x10_0000_0000_0000,
        pow2(53) == 0x20_0000_0000_0000,
        pow2(64) == 0x1_0000_0000_0000_0000,
        pow2(115) == 0x8_0000_0000_0000_0000_0000_0000_0000,
        pow2(116) == 0x10_0000_0000_0000_0000_0000_0000_0000,
        pow2(120) == 0x100_0000_0000_0000_0000_0000_0000_0000,
        pow2(128) == 0x1_0000_0000_0000_0000_0000_0000_0000_0000,
{
    lemma2_to64();
    lemma_pow2_adds(32, 19);
    lemma_pow2_adds(32, 20);
    lemma_pow2_adds(32, 21);
    lemma_pow2_adds(32, 24);
    lemma_pow2_adds(64, 51);
    lemma_pow2_adds(64, 52);
    lemma_pow2_adds(64, 56);
    lemma_pow2_adds(64, 64);
}

proof fn lemma_bits_le(n: nat, k: nat)
    requires
        n < pow2(k),
    ensures
        bits(n) <= k,
{
    lemma_bits_bound(n);
    if bits(n) > k {
        lemma_pow2_mono(k, (bits(n) - 1) as nat);
    }
}

proof fn lemma_round_sig_bound(n: nat, k: nat)
    requires
        n < pow2(k),
    ensures
        round_sig(n, 53) <= pow2(k),
{
    lemma_bits_le(n, k);
    lemma_bits_bound(n);
    if bits(n) > 53 {
        let s = (bits(n) - 53) as nat;
        let d = pow2(s);
        vstd::arithmetic::power2::lemma_pow2_pos(s);
        lemma_pow2_adds(53, s);
        lemma_pow2_mono(bits(n), k);
        let q = n / d;
        assert(53 + s == bits(n));
        assert(n < pow2(53) * d);
        assert(q < pow2(53)) by (nonlinear_arith)
            requires
                n < pow2(53) * d,
                q == n / d,
                d > 0,
        ;
        assert(q * d <= (q + 1) * d <= pow2(53) * d) by (nonlinear_arith)
            requires
                q + 1 <= pow2(53),
                d > 0,
        ;
        assert(pow2(53) * d <= pow2(k));
    }
}

fn bits_u128(n: u128) -> (r: u32)
    ensures
        r as nat == bits(n as nat),
        r <= 128,
{
    proof {
        lemma_bits_bound(n as nat);
        lemma_pow2_values();
        if bits(n as nat) > 128 {
            lemma_pow2_mono(128, (bits(n as nat) - 1) as nat);
        }
    }
    let mut m = n;
    let mut r: u32 = 0;
    while m > 0
        invariant
            r as nat + bits(m as nat) == bits(n as nat),
            bits(n as nat) <= 128,
        decreases m,
    {
        m = m / 2;
        r = r + 1;
    }
    r
}

fn pow2_u128(e: u32) -> (r: u128)
    requires
        e < 128,
    ensures
        r as nat == pow2(e as nat),
{
    let mut r: u128 = 1;
    let mut i: u32 = 0;
    proof {
        lemma2_to64();
    }
    while i < e
        invariant
            i <= e < 128,
            r as nat == pow2(i as nat),
        decreases e - i,
    {
        proof {
            lemma_pow2_unfold((i + 1) as nat);
            lemma_pow2_mono((i + 1) as nat, 127);
            lemma_pow2_adds(63, 64);
            lemma_pow2_adds(64, 64);
            lemma_pow2_unfold(128);
            lemma2_to64();
        }
        r = r * 2;
        i = i + 1;
    }
    r
}

/// `n` rounded to 53 significant bits, ties to even.
pub fn round_sig53(n: u128) -> (r: u128)
    requires
        n < 0x100_0000_0000_0000_0000_0000_0000_0000,
    ensures
        r as nat == round_sig(n as nat, 53),
{
    let b = bits_u128(n);
    if b <= 53 {
        return n;
    }
    let s = b - 53;
    proof {
        lemma_pow2_values();
        lemma_bits_le(n as nat, 120);
    }
    let d = pow2_u128(s);
    proof {
        vstd::arithmetic::power2::lemma_pow2_pos(s as nat);
    }
    let q = n / d;
    let r = n % d;
    let h = d / 2;
    proof {
        lemma_bits_bound(n as nat);
        lemma_pow2_adds(53, s as nat);
        assert(q < pow2(53)) by (nonlinear_arith)
            requires
                n < pow2(53) * d,
                q == n / d,
                d > 0,
        ;
        lemma_pow2_values();
        lemma_pow2_mono((53 + s) as nat, 120);
        assert((q + 1) * d <= pow2(53) * d) by (nonlinear_arith)
            requires
                q + 1 <= pow2(53),
                d > 0,
        ;
    }
    let q2 = if r > h || (r == h && q % 2 == 1) {
        q + 1
    } else {
        q
    };
    proof {
        assert(q2 * d <= pow2(120)) by (nonlinear_arith)
            requires
                q2 <= q + 1,
                (q + 1) * d <= pow2(53) * d,
                pow2(53) * d <= pow2(120),
                d > 0,
        ;
    }
    q2 * d
}

/// The v7 noise threshold of the 64-bit draw `y`.
pub fn v7_threshold_exec(y: u64) -> (t: u128)
    ensures
        t as nat == v7_threshold(y as nat),
{
    proof {
        lemma_pow2_values();
    }
    let ry = round_sig53(y as u128);
    proof {
        lemma_round_sig_bound(y as nat, 64);
    }
    assert(ry * DELTA_M < pow2(116)) by (nonlinear_arith)
        requires
            ry <= pow2(64),
            DELTA_M < pow2(52),
            pow2(116) == pow2(64) * pow2(52),
            pow2(64) == 0x1_0000_0000_0000_0000,
            pow2(52) == 0x10_0000_0000_0000,
    ;
    let p = round_sig53(ry * DELTA_M);
    proof {
        lemma_round_sig_bound((ry * DELTA_M) as nat, 116);
    }
    let s: u128 = 3 * 0x8_0000_0000_0000_0000_0000_0000_0000 + p;
    let two64: u128 = 0x1_0000_0000_0000_0000;
    let q = s / two64;
    let r = s % two64;
    let h = two64 / 2;
    let pm = if r > h || (r == h && q % 2 == 1) {
        q + 1
    } else {
        q
    };
    assert(pm <= 0x100_0000_0000_0000) by (nonlinear_arith)
        requires
            pm <= q + 1,
            q == s / two64,
            two64 == 0x1_0000_0000_0000_0000,
            s <= 0x40_0000_0000_0000_0000_0000_0000_0000,
    ;
    pm * 2048
}

/// Domain 0x02, v7: the noise threshold of a nonce.
pub fn derive_noise_p(kb: &[u8], nonce: &[u8]) -> (t: u128)
    ensures
        t as nat == noise_p_v7(kb@, nonce@),
{
    let mut buf: Vec<u8> = Vec::new();
    buf.push(0x02);
    crate::bytes::append_bytes(&mut buf, nonce);
    assert(buf@ =~= seq![0x02u8] + nonce@);
    let d = mac(kb, buf.as_slice());
    v7_threshold_exec(crate::derive::digest_u64(&d))
}

/// Domain 0x00, v7: whether position `ct_pos` carries a noise token.
pub fn is_noise_pos(kb: &[u8], nonce: &[u8], ct_pos: u64, noise_p: u128) -> (r: bool)
    ensures
        r == is_noise_v7(kb@, nonce@, ct_pos as nat, noise_p as nat),
{
    let mut buf: Vec<u8> = Vec::new();
    buf.push(0x00);
    crate::bytes::append_bytes(&mut buf, nonce);
    let b = crate::bytes::be_bytes(ct_pos, 5);
    crate::bytes::append_bytes(&mut buf, b.as_slice());
    assert(buf@ =~= pos_input(0x00, nonce@, ct_pos as nat));
    let d = mac(kb, buf.as_slice());
    round_sig53(crate::derive::digest_u64(&d) as u128) < noise_p
}

} // verus!
