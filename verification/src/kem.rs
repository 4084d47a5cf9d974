//! Key establishment: a FrodoKEM-640-AES shared secret (or a FrodoKEM and an
//! X25519 shared secret together, the hybrid) turned into an ordered NAPQES
//! prime key by HKDF-SHA256 and counter-mode HMAC-SHA256.
//!
//! The derived list is ordered: order is a key parameter, so it is never
//! sorted.
use crate::bytes::{append_bytes, be_bytes, be_encode, be_value, lemma_byte_pow_values};
use crate::derive::{digest_u64, mac};
use crate::kem_primitives::{
    frodo_decapsulate, frodo_encapsulate, frodo_keypair, frodo_shared_secret, hkdf_sha256_32,
    x25519_base, x25519_dh, x25519_public_key, x25519_random_secret, x25519_shared,
};
use crate::primes::{contains, is_duplicate, is_prime, prime, valid_key};
use crate::primitives::digest;
use crate::text::{dec, push_dec, push_str};
use vstd::prelude::*;

verus! {

/// Number of primes in a derived key.
pub const NAPQES_KEY_COUNT: usize = 13;

/// Lower bound (inclusive) of the derived primes.
pub const MIN_PRIME: u64 = 1_000_000;

/// Upper bound (exclusive) of the derived primes.
pub const MAX_PRIME: u64 = 15_000_000;

/// FrodoKEM-640-AES public key size.
pub const FRODO_PUBLIC_KEY_SIZE: usize = 9_616;

/// FrodoKEM-640-AES secret key size.
pub const FRODO_SECRET_KEY_SIZE: usize = 19_888;

/// FrodoKEM-640-AES ciphertext size.
pub const FRODO_CIPHERTEXT_SIZE: usize = 9_720;

/// X25519 public keys, secret scalars and shared secrets are 32 bytes.
pub const X25519_KEY_SIZE: usize = 32;

/// Hybrid public key: FrodoKEM public key, then X25519 public key.
pub const HYBRID_PUBLIC_KEY_SIZE: usize = FRODO_PUBLIC_KEY_SIZE + X25519_KEY_SIZE;

/// Hybrid secret key: FrodoKEM secret key, X25519 scalar, FrodoKEM public
/// key (so that the decapsulator rebuilds the encapsulator's transcript).
pub const HYBRID_SECRET_KEY_SIZE: usize = FRODO_SECRET_KEY_SIZE + X25519_KEY_SIZE
    + FRODO_PUBLIC_KEY_SIZE;

/// Hybrid ciphertext: FrodoKEM ciphertext, then the ephemeral X25519 key.
pub const HYBRID_CIPHERTEXT_SIZE: usize = FRODO_CIPHERTEXT_SIZE + X25519_KEY_SIZE;

/// HKDF salt of the FrodoKEM-only schedule: `NAPQES-v6-FrodoKEM-640-prime-key`.
pub const HKDF_SALT: [u8; 32] = [
    0x4E, 0x41, 0x50, 0x51, 0x45, 0x53, 0x2D, 0x76, 0x36, 0x2D, 0x46, 0x72, 0x6F, 0x64, 0x6F, 0x4B,
    0x45, 0x4D, 0x2D, 0x36, 0x34, 0x30, 0x2D, 0x70, 0x72, 0x69, 0x6D, 0x65, 0x2D, 0x6B, 0x65, 0x79,
];

/// HKDF info of the FrodoKEM-only schedule: `v1`.
pub const HKDF_INFO: [u8; 2] = [0x76, 0x31];

/// HKDF salt of the hybrid schedule:
/// `NAPQES-hybrid-FrodoKEM640AES-X25519-prime-key`.
pub const HYBRID_HKDF_SALT: [u8; 45] = [
    0x4E, 0x41, 0x50, 0x51, 0x45, 0x53, 0x2D, 0x68, 0x79, 0x62, 0x72, 0x69, 0x64, 0x2D, 0x46, 0x72,
    0x6F, 0x64, 0x6F, 0x4B, 0x45, 0x4D, 0x36, 0x34, 0x30, 0x41, 0x45, 0x53, 0x2D, 0x58, 0x32, 0x35,
    0x35, 0x31, 0x39, 0x2D, 0x70, 0x72, 0x69, 0x6D, 0x65, 0x2D, 0x6B, 0x65, 0x79,
];

/// Prefix of the hybrid transcript: `v2`.
pub const HYBRID_HKDF_INFO_PREFIX: [u8; 2] = [0x76, 0x32];

/// HKDF-SHA256 with a 32-byte output (one expansion block).
pub open spec fn hkdf32(salt: Seq<u8>, ikm: Seq<u8>, info: Seq<u8>) -> Seq<u8> {
    digest(digest(salt, ikm), info + seq![1u8])
}

/// Candidate number `counter`: the first eight bytes of
/// `HMAC(seed, be4(counter))`, reduced into `[MIN_PRIME, MAX_PRIME)`.
pub open spec fn draw(seed: Seq<u8>, counter: nat) -> u64 {
    (be_value(digest(seed, be_encode(counter, 4)).subrange(0, 8)) % 14_000_000
        + 1_000_000) as u64
}

/// The expansion from `counter` on with the primes `acc` kept so far: a
/// candidate is kept when it is prime and new, until 13 are kept or the
/// 32-bit counter is used up.
pub open spec fn expand_from(seed: Seq<u8>, counter: nat, acc: Seq<u64>) -> Seq<u64>
    decreases 0x1_0000_0000 - counter,
{
    if acc.len() >= NAPQES_KEY_COUNT || counter >= 0x1_0000_0000 {
        acc
    } else {
        let raw = draw(seed, counter);
        if !acc.contains(raw) && prime(raw as nat) {
            expand_from(seed, counter + 1, acc.push(raw))
        } else {
            expand_from(seed, counter + 1, acc)
        }
    }
}

/// The key expanded from a seed.
pub open spec fn expand_seed(seed: Seq<u8>) -> Seq<u64> {
    expand_from(seed, 0, seq![])
}

/// The key derived from a FrodoKEM shared secret.
pub open spec fn derive_key_spec(ss: Seq<u8>) -> Seq<u64> {
    expand_seed(hkdf32(HKDF_SALT@, ss, HKDF_INFO@))
}

/// Counter-mode HMAC-SHA256 expansion of `seed` into up to
/// `NAPQES_KEY_COUNT` distinct primes, in the order drawn.
pub fn expand_seed_to_primes(seed: &[u8; 32]) -> (out: Vec<u64>)
    ensures
        out@ == expand_seed(seed@),
{
    let mut primes: Vec<u64> = Vec::new();
    let mut counter: u64 = 0;
    while primes.len() < NAPQES_KEY_COUNT && counter < 0x1_0000_0000
        invariant
            counter <= 0x1_0000_0000,
            expand_from(seed@, counter as nat, primes@) == expand_seed(seed@),
        decreases 0x1_0000_0000 - counter,
    {
        let cb = be_bytes(counter, 4);
        let d = mac(seed, cb.as_slice());
        let x = digest_u64(&d);
        let raw = x % 14_000_000 + 1_000_000;
        proof {
            assert(d@.subrange(0, 8) == digest(seed@, be_encode(counter as nat, 4)).subrange(0, 8));
            assert(raw == draw(seed@, counter as nat));
        }
        if !contains(&primes, raw) && is_prime(raw) {
            primes.push(raw);
        }
        counter = counter + 1;
    }
    primes
}

/// The key derived from a FrodoKEM shared secret: HKDF-SHA256 (salt
/// `HKDF_SALT`, info `HKDF_INFO`) into a 32-byte seed, then the expansion.
pub fn derive_napqes_key(shared_secret: &[u8]) -> (out: Vec<u64>)
    ensures
        out@ == derive_key_spec(shared_secret@),
{
    let seed = hkdf_sha256_32(&HKDF_SALT, shared_secret, &HKDF_INFO);
    expand_seed_to_primes(&seed)
}

/// The derived primes are distinct, prime and in `[MIN_PRIME, MAX_PRIME)`.
pub open spec fn derived_primes_ok(key: Seq<u64>) -> bool {
    &&& key.len() <= NAPQES_KEY_COUNT
    &&& forall|i: int|
        0 <= i < key.len() ==> prime(#[trigger] key[i] as nat) && MIN_PRIME <= key[i] < MAX_PRIME
    &&& forall|i: int, j: int| 0 <= i < j < key.len() ==> #[trigger] key[i] != #[trigger] key[j]
}

proof fn lemma_expand_from_ok(seed: Seq<u8>, counter: nat, acc: Seq<u64>)
    requires
        derived_primes_ok(acc),
    ensures
        derived_primes_ok(expand_from(seed, counter, acc)),
        expand_from(seed, counter, acc).len() >= acc.len(),
    decreases 0x1_0000_0000 - counter,
{
    if !(acc.len() >= NAPQES_KEY_COUNT || counter >= 0x1_0000_0000) {
        let raw = draw(seed, counter);
        if !acc.contains(raw) && prime(raw as nat) {
            let next = acc.push(raw);
            assert forall|i: int, j: int| 0 <= i < j < next.len() implies #[trigger] next[i]
                != #[trigger] next[j] by {
                if j == acc.len() {
                    assert(next[i] == acc[i]);
                    assert(acc.contains(acc[i]));
                }
            }
            lemma_expand_from_ok(seed, counter + 1, next);
        } else {
            lemma_expand_from_ok(seed, counter + 1, acc);
        }
    }
}

/// Every derived key holds at most `NAPQES_KEY_COUNT` distinct primes from
/// `[MIN_PRIME, MAX_PRIME)`, in the order drawn; a non-empty one is a valid
/// NAPQES key.
pub proof fn lemma_expand_seed_valid(seed: Seq<u8>)
    ensures
        derived_primes_ok(expand_seed(seed)),
        expand_seed(seed).len() > 0 ==> valid_key(expand_seed(seed)),
{
    lemma_expand_from_ok(seed, 0, seq![]);
    let key = expand_seed(seed);
    if key.len() > 0 {
        assert(!crate::primes::has_duplicate(key)) by {
            if crate::primes::has_duplicate(key) {
                let v = choose|v: u64| #[trigger] is_duplicate(key, v);
                let (i, j) = choose|i: int, j: int|
                    0 <= i < j < key.len() && #[trigger] key[i] == v && #[trigger] key[j] == v;
                assert(key[i] != key[j]);
            }
        }
    }
}

/// The hybrid transcript: `v2`, then each public value with its 4-byte
/// big-endian length (the low 32 bits of the length).
pub open spec fn transcript_spec(
    pk_pq: Seq<u8>,
    ct_pq: Seq<u8>,
    pk_ec_static: Seq<u8>,
    pk_ec_ephemeral: Seq<u8>,
) -> Seq<u8> {
    HYBRID_HKDF_INFO_PREFIX@ + be_encode(pk_pq.len(), 4) + pk_pq + be_encode(ct_pq.len(), 4) + ct_pq
        + be_encode(pk_ec_static.len(), 4) + pk_ec_static + be_encode(pk_ec_ephemeral.len(), 4)
        + pk_ec_ephemeral
}

fn push_part(out: &mut Vec<u8>, part: &[u8])
    ensures
        final(out)@ == old(out)@ + be_encode(part@.len(), 4) + part@,
{
    let lb = be_bytes(part.len() as u64, 4);
    append_bytes(out, lb.as_slice());
    append_bytes(out, part);
}

/// Length-prefixed binding of every public value of a hybrid exchange, the
/// HKDF `info` of the hybrid schedule.
pub fn hybrid_transcript(
    pk_pq: &[u8],
    ct_pq: &[u8],
    pk_ec_static: &[u8],
    pk_ec_ephemeral: &[u8],
) -> (out: Vec<u8>)
    ensures
        out@ == transcript_spec(pk_pq@, ct_pq@, pk_ec_static@, pk_ec_ephemeral@),
{
    let mut out: Vec<u8> = Vec::new();
    append_bytes(&mut out, &HYBRID_HKDF_INFO_PREFIX);
    push_part(&mut out, pk_pq);
    push_part(&mut out, ct_pq);
    push_part(&mut out, pk_ec_static);
    push_part(&mut out, pk_ec_ephemeral);
    out
}

pub open spec fn msg_ec_len(n: nat) -> Seq<char> {
    "X25519 shared secret must be 32 bytes, got "@ + dec(n)
}

pub open spec fn msg_ec_zero() -> Seq<char> {
    "X25519 shared secret is all-zero: the peer supplied a small-order point, so the classical half of the hybrid would contribute no entropy"@
}

/// All bytes are zero.
pub open spec fn all_zero(s: Seq<u8>) -> bool {
    forall|i: int| 0 <= i < s.len() ==> #[trigger] s[i] == 0
}

/// The hybrid derivation: the X25519 secret must be 32 bytes and not all
/// zero (a small-order peer point); then HKDF-SHA256 over both secrets,
/// with the transcript as info.
pub open spec fn derive_hybrid_spec(ss_pq: Seq<u8>, ss_ec: Seq<u8>, transcript: Seq<u8>) -> Result<
    Seq<u64>,
    Seq<char>,
> {
    if ss_ec.len() != 32 {
        Err(msg_ec_len(ss_ec.len()))
    } else if all_zero(ss_ec) {
        Err(msg_ec_zero())
    } else {
        Ok(expand_seed(hkdf32(HYBRID_HKDF_SALT@, ss_pq + ss_ec, transcript)))
    }
}

pub open spec fn key_result(r: Result<Vec<u64>, String>) -> Result<Seq<u64>, Seq<char>> {
    match r {
        Ok(v) => Ok(v@),
        Err(e) => Err(e@),
    }
}

/// The NAPQES key from both shared secrets and the transcript.
pub fn derive_napqes_key_hybrid(ss_pq: &[u8], ss_ec: &[u8], transcript: &[u8]) -> (r: Result<
    Vec<u64>,
    String,
>)
    ensures
        key_result(r) == derive_hybrid_spec(ss_pq@, ss_ec@, transcript@),
{
    if ss_ec.len() != X25519_KEY_SIZE {
        let mut s = String::from_str("X25519 shared secret must be 32 bytes, got ");
        push_dec(&mut s, ss_ec.len() as u64);
        return Err(s);
    }
    let mut zero = true;
    let mut i: usize = 0;
    while i < ss_ec.len()
        invariant
            i <= ss_ec@.len(),
            zero == (forall|j: int| 0 <= j < i ==> #[trigger] ss_ec@[j] == 0),
        decreases ss_ec@.len() - i,
    {
        if ss_ec[i] != 0 {
            zero = false;
        }
        i = i + 1;
    }
    if zero {
        return Err(
            String::from_str(
                "X25519 shared secret is all-zero: the peer supplied a small-order point, so the classical half of the hybrid would contribute no entropy",
            ),
        );
    }
    let mut ikm: Vec<u8> = Vec::new();
    append_bytes(&mut ikm, ss_pq);
    append_bytes(&mut ikm, ss_ec);
    let seed = hkdf_sha256_32(&HYBRID_HKDF_SALT, ikm.as_slice(), transcript);
    Ok(expand_seed_to_primes(&seed))
}

pub open spec fn msg_bad_pk() -> Seq<char> {
    "invalid FrodoKEM-640-AES public key"@
}

pub open spec fn msg_bad_ct() -> Seq<char> {
    "invalid FrodoKEM-640-AES ciphertext"@
}

pub open spec fn msg_bad_sk() -> Seq<char> {
    "invalid FrodoKEM-640-AES secret key"@
}

/// A fresh FrodoKEM-640-AES key pair `(public_key, secret_key)`.
pub fn keygen() -> (r: (Vec<u8>, Vec<u8>))
    ensures
        r.0@.len() == FRODO_PUBLIC_KEY_SIZE,
        r.1@.len() == FRODO_SECRET_KEY_SIZE,
{
    frodo_keypair()
}

/// Encapsulates a fresh shared secret to `public_key`; returns the KEM
/// ciphertext and the NAPQES key derived from the secret.
pub fn encapsulate(public_key: &[u8]) -> (r: Result<(Vec<u8>, Vec<u64>), String>)
    ensures
        match r {
            Ok((ct, key)) => {
                &&& public_key@.len() == FRODO_PUBLIC_KEY_SIZE
                &&& ct@.len() == FRODO_CIPHERTEXT_SIZE
                &&& exists|ss: Seq<u8>| ss.len() == 16 && key@ == #[trigger] derive_key_spec(ss)
            },
            Err(e) => public_key@.len() != FRODO_PUBLIC_KEY_SIZE && e@ == msg_bad_pk(),
        },
{
    match frodo_encapsulate(public_key) {
        None => Err(String::from_str("invalid FrodoKEM-640-AES public key")),
        Some((ss, ct)) => {
            let key = derive_napqes_key(ss.as_slice());
            assert(key@ == derive_key_spec(ss@));
            Ok((ct, key))
        },
    }
}

/// What decapsulation gives: the key derived from the shared secret, or
/// which input has the wrong size.
pub open spec fn decapsulate_spec(ct: Seq<u8>, sk: Seq<u8>) -> Result<Seq<u64>, Seq<char>> {
    if ct.len() != FRODO_CIPHERTEXT_SIZE {
        Err(msg_bad_ct())
    } else if sk.len() != FRODO_SECRET_KEY_SIZE {
        Err(msg_bad_sk())
    } else {
        Ok(derive_key_spec(frodo_shared_secret(ct, sk)))
    }
}

/// Decapsulates `ciphertext` under `secret_key` and derives the NAPQES key.
pub fn decapsulate(ciphertext: &[u8], secret_key: &[u8]) -> (r: Result<Vec<u64>, String>)
    ensures
        key_result(r) == decapsulate_spec(ciphertext@, secret_key@),
{
    match frodo_decapsulate(ciphertext, secret_key) {
        None => {
            if ciphertext.len() != FRODO_CIPHERTEXT_SIZE {
                Err(String::from_str("invalid FrodoKEM-640-AES ciphertext"))
            } else {
                Err(String::from_str("invalid FrodoKEM-640-AES secret key"))
            }
        },
        Some(ss) => Ok(derive_napqes_key(ss.as_slice())),
    }
}

/// A fresh hybrid key pair: `public_key = pk_frodo || pk_x25519` and
/// `secret_key = sk_frodo || sk_x25519 || pk_frodo`.
pub fn keygen_hybrid() -> (r: (Vec<u8>, Vec<u8>))
    ensures
        r.0@.len() == HYBRID_PUBLIC_KEY_SIZE,
        r.1@.len() == HYBRID_SECRET_KEY_SIZE,
        r.0@.subrange(0, 9616) == r.1@.subrange(19920, 29536),
        r.0@.subrange(9616, 9648) == x25519_base(r.1@.subrange(19888, 19920)),
{
    let (pk_pq, sk_pq) = frodo_keypair();
    let sk_ec = x25519_random_secret();
    let pk_ec = x25519_public_key(&sk_ec);
    let mut public_key: Vec<u8> = Vec::new();
    append_bytes(&mut public_key, pk_pq.as_slice());
    append_bytes(&mut public_key, &pk_ec);
    let mut secret_key: Vec<u8> = Vec::new();
    append_bytes(&mut secret_key, sk_pq.as_slice());
    append_bytes(&mut secret_key, &sk_ec);
    append_bytes(&mut secret_key, pk_pq.as_slice());
    proof {
        assert(public_key@.subrange(0, 9616) =~= pk_pq@);
        assert(secret_key@.subrange(19920, 29536) =~= pk_pq@);
        assert(public_key@.subrange(9616, 9648) =~= pk_ec@);
        assert(secret_key@.subrange(19888, 19920) =~= sk_ec@);
    }
    (public_key, secret_key)
}

pub open spec fn msg_hybrid_pk_len(n: nat) -> Seq<char> {
    "Hybrid public key must be 9648 bytes, got "@ + dec(n)
}

pub open spec fn msg_hybrid_ct_len(n: nat) -> Seq<char> {
    "Hybrid ciphertext must be 9752 bytes, got "@ + dec(n)
}

pub open spec fn msg_hybrid_sk_len(n: nat) -> Seq<char> {
    "Hybrid secret key must be 29536 bytes, got "@ + dec(n)
}

/// The key a hybrid encapsulation to `pk` derives, for a FrodoKEM shared
/// secret `ss_pq` and FrodoKEM ciphertext `ct_pq` and an ephemeral X25519
/// scalar `eph`.
pub open spec fn encapsulated_hybrid(
    pk: Seq<u8>,
    ss_pq: Seq<u8>,
    ct_pq: Seq<u8>,
    eph: Seq<u8>,
) -> Result<Seq<u64>, Seq<char>> {
    let pk_pq = pk.subrange(0, 9616);
    let pk_ec = pk.subrange(9616, 9648);
    derive_hybrid_spec(
        ss_pq,
        x25519_dh(eph, pk_ec),
        transcript_spec(pk_pq, ct_pq, pk_ec, x25519_base(eph)),
    )
}

/// Encapsulates a fresh hybrid shared secret to `public_key`; returns
/// `ct_frodo || pk_x25519_ephemeral` and the derived key.
pub fn encapsulate_hybrid(public_key: &[u8]) -> (r: Result<(Vec<u8>, Vec<u64>), String>)
    ensures
        match r {
            Ok((ct, key)) => {
                &&& public_key@.len() == HYBRID_PUBLIC_KEY_SIZE
                &&& ct@.len() == HYBRID_CIPHERTEXT_SIZE
                &&& exists|ss_pq: Seq<u8>, eph: Seq<u8>|
                    #![trigger encapsulated_hybrid(public_key@, ss_pq, ct@.subrange(0, 9720), eph)]
                    {
                        &&& ss_pq.len() == 16
                        &&& eph.len() == 32
                        &&& ct@.subrange(9720, 9752) == x25519_base(eph)
                        &&& encapsulated_hybrid(public_key@, ss_pq, ct@.subrange(0, 9720), eph)
                            == Ok::<Seq<u64>, Seq<char>>(key@)
                    }
            },
            Err(e) => if public_key@.len() != HYBRID_PUBLIC_KEY_SIZE {
                e@ == msg_hybrid_pk_len(public_key@.len())
            } else {
                exists|ss_pq: Seq<u8>, ct_pq: Seq<u8>, eph: Seq<u8>|
                    #[trigger] encapsulated_hybrid(public_key@, ss_pq, ct_pq, eph) == Err::<
                        Seq<u64>,
                        Seq<char>,
                    >(e@)
            },
        },
{
    if public_key.len() != HYBRID_PUBLIC_KEY_SIZE {
        let mut s = String::from_str("Hybrid public key must be 9648 bytes, got ");
        push_dec(&mut s, public_key.len() as u64);
        return Err(s);
    }
    let pk_pq = &public_key[0..9616];
    assert(pk_pq@ =~= public_key@.subrange(0, 9616));
    let (ss_pq, ct_pq) = match frodo_encapsulate(pk_pq) {
        None => {
            return Err(String::from_str("invalid FrodoKEM-640-AES public key"));
        },
        Some(p) => p,
    };
    let mut pk_ec = [0u8; 32];
    let mut i: usize = 0;
    while i < 32
        invariant
            i <= 32,
            public_key@.len() == 9648,
            forall|j: int| 0 <= j < i ==> pk_ec@[j] == public_key@[9616 + j],
        decreases 32 - i,
    {
        pk_ec[i] = public_key[9616 + i];
        i = i + 1;
    }
    proof {
        assert(pk_ec@ =~= public_key@.subrange(9616, 9648));
    }
    let eph = x25519_random_secret();
    let eph_pk = x25519_public_key(&eph);
    let ss_ec = x25519_shared(&eph, &pk_ec);
    let transcript = hybrid_transcript(pk_pq, ct_pq.as_slice(), &pk_ec, &eph_pk);
    let key = match derive_napqes_key_hybrid(ss_pq.as_slice(), &ss_ec, transcript.as_slice()) {
        Ok(k) => k,
        Err(e) => {
            proof {
                assert(encapsulated_hybrid(public_key@, ss_pq@, ct_pq@, eph@) == Err::<
                    Seq<u64>,
                    Seq<char>,
                >(e@));
            }
            return Err(e);
        },
    };
    let mut ct: Vec<u8> = Vec::new();
    append_bytes(&mut ct, ct_pq.as_slice());
    append_bytes(&mut ct, &eph_pk);
    proof {
        assert(ct@.subrange(0, 9720) =~= ct_pq@);
        assert(ct@.subrange(9720, 9752) =~= eph_pk@);
        assert(encapsulated_hybrid(public_key@, ss_pq@, ct@.subrange(0, 9720), eph@) == Ok::<
            Seq<u64>,
            Seq<char>,
        >(key@));
        assert(ss_pq@.len() == 16);
        assert(eph@.len() == 32);
        assert(ct@.subrange(9720, 9752) == x25519_base(eph@));
    }
    Ok((ct, key))
}

/// What hybrid decapsulation gives.
pub open spec fn decapsulate_hybrid_spec(ct: Seq<u8>, sk: Seq<u8>) -> Result<Seq<u64>, Seq<char>> {
    if ct.len() != HYBRID_CIPHERTEXT_SIZE {
        Err(msg_hybrid_ct_len(ct.len()))
    } else if sk.len() != HYBRID_SECRET_KEY_SIZE {
        Err(msg_hybrid_sk_len(sk.len()))
    } else {
        let ct_pq = ct.subrange(0, 9720);
        let eph_pk = ct.subrange(9720, 9752);
        let sk_pq = sk.subrange(0, 19888);
        let sk_ec = sk.subrange(19888, 19920);
        let pk_pq = sk.subrange(19920, 29536);
        derive_hybrid_spec(
            frodo_shared_secret(ct_pq, sk_pq),
            x25519_dh(sk_ec, eph_pk),
            transcript_spec(pk_pq, ct_pq, x25519_base(sk_ec), eph_pk),
        )
    }
}

fn array32(s: &[u8], start: usize) -> (out: [u8; 32])
    requires
        start + 32 <= s@.len(),
    ensures
        out@ == s@.subrange(start as int, start + 32),
{
    let mut out = [0u8; 32];
    let n = s.len();
    let mut i: usize = 0;
    while i < 32
        invariant
            i <= 32,
            n == s@.len(),
            start + 32 <= s@.len(),
            forall|j: int| 0 <= j < i ==> out@[j] == s@[start + j],
        decreases 32 - i,
    {
        assert(start + i < s@.len());
        out[i] = s[start + i];
        i = i + 1;
    }
    assert(out@ =~= s@.subrange(start as int, start + 32));
    out
}

/// Decapsulates a hybrid ciphertext under a hybrid secret key and derives
/// the NAPQES key.
pub fn decapsulate_hybrid(ciphertext: &[u8], secret_key: &[u8]) -> (r: Result<Vec<u64>, String>)
    ensures
        key_result(r) == decapsulate_hybrid_spec(ciphertext@, secret_key@),
{
    if ciphertext.len() != HYBRID_CIPHERTEXT_SIZE {
        let mut s = String::from_str("Hybrid ciphertext must be 9752 bytes, got ");
        push_dec(&mut s, ciphertext.len() as u64);
        return Err(s);
    }
    if secret_key.len() != HYBRID_SECRET_KEY_SIZE {
        let mut s = String::from_str("Hybrid secret key must be 29536 bytes, got ");
        push_dec(&mut s, secret_key.len() as u64);
        return Err(s);
    }
    let ct_pq = &ciphertext[0..9720];
    let sk_pq = &secret_key[0..19888];
    let pk_pq = &secret_key[19920..29536];
    let ss_pq = match frodo_decapsulate(ct_pq, sk_pq) {
        None => {
            return Err(String::from_str("invalid FrodoKEM-640-AES ciphertext"));
        },
        Some(s) => s,
    };
    let sk_ec = array32(secret_key, 19888);
    let eph_pk = array32(ciphertext, 9720);
    let pk_ec = x25519_public_key(&sk_ec);
    let ss_ec = x25519_shared(&sk_ec, &eph_pk);
    let transcript = hybrid_transcript(pk_pq, ct_pq, &pk_ec, &eph_pk);
    derive_napqes_key_hybrid(ss_pq.as_slice(), &ss_ec, transcript.as_slice())
}

} // verus!
