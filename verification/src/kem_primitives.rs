//! The calls the key establishment makes into outside code: HKDF-SHA256
//! (hkdf), FrodoKEM-640-AES (pqcrypto-frodo, pqcrypto-traits) and X25519
//! (x25519-dalek). Every item here is trusted; its doc comment says what it
//! claims.
use crate::primitives::digest;
use hkdf::Hkdf;
use pqcrypto_frodo::frodokem640aes;
use pqcrypto_traits::kem::Ciphertext as _;
use pqcrypto_traits::kem::PublicKey as _;
use pqcrypto_traits::kem::SecretKey as _;
use pqcrypto_traits::kem::SharedSecret as _;
use rand::rngs::OsRng;
use sha2::Sha256;
use vstd::prelude::*;

verus! {

/// Calls `Hkdf::<Sha256>::new(Some(salt), ikm)` and `expand(info, ..)` into
/// 32 bytes. Claimed, as RFC 5869 and the crate's source (`extract`,
/// `expand_multi_info`) show it: the pseudorandom key is HMAC-SHA256 of
/// `ikm` under `salt`, and the single output block is HMAC-SHA256 of
/// `info || 0x01` under that key. Expansion to 32 bytes never fails.
#[verifier::external_body]
pub(crate) fn hkdf_sha256_32(salt: &[u8], ikm: &[u8], info: &[u8]) -> (out: [u8; 32])
    ensures
        out@ == digest(digest(salt@, ikm@), info@ + seq![1u8]),
{
    let hk = Hkdf::<Sha256>::new(Some(salt), ikm);
    let mut out = [0u8; 32];
    hk.expand(info, &mut out).expect("32 bytes fit one HKDF-SHA256 block");
    out
}

/// Calls `frodokem640aes::keypair`. Claimed: the public key has 9616 bytes
/// and the secret key 19888 (the crate's `CRYPTO_PUBLICKEYBYTES` and
/// `CRYPTO_SECRETKEYBYTES`). The keys are random; nothing else is claimed.
#[verifier::external_body]
pub(crate) fn frodo_keypair() -> (r: (Vec<u8>, Vec<u8>))
    ensures
        r.0@.len() == 9616,
        r.1@.len() == 19888,
{
    let (pk, sk) = frodokem640aes::keypair();
    (pk.as_bytes().to_vec(), sk.as_bytes().to_vec())
}

/// Calls `PublicKey::from_bytes` and `frodokem640aes::encapsulate`.
/// Claimed: `None` exactly when the key is not 9616 bytes long (the only
/// check `from_bytes` makes); otherwise a 16-byte shared secret and a
/// 9720-byte ciphertext. Both are random; nothing else is claimed.
#[verifier::external_body]
pub(crate) fn frodo_encapsulate(pk: &[u8]) -> (r: Option<(Vec<u8>, Vec<u8>)>)
    ensures
        r is None <==> pk@.len() != 9616,
        r matches Some((ss, ct)) ==> ss@.len() == 16 && ct@.len() == 9720,
{
    match frodokem640aes::PublicKey::from_bytes(pk) {
        Err(_) => None,
        Ok(p) => {
            let (ss, ct) = frodokem640aes::encapsulate(&p);
            Some((ss.as_bytes().to_vec(), ct.as_bytes().to_vec()))
        },
    }
}

/// The FrodoKEM-640-AES shared secret that decapsulating `ct` under `sk`
/// gives. Its value on given inputs is left unstated.
pub uninterp spec fn frodo_shared_secret(ct: Seq<u8>, sk: Seq<u8>) -> Seq<u8>;

/// Calls `Ciphertext::from_bytes`, `SecretKey::from_bytes` and
/// `frodokem640aes::decapsulate`. Claimed: `None` exactly when the
/// ciphertext is not 9720 bytes or the secret key not 19888 bytes long;
/// otherwise the 16-byte `frodo_shared_secret(ct, sk)`.
#[verifier::external_body]
pub(crate) fn frodo_decapsulate(ct: &[u8], sk: &[u8]) -> (r: Option<Vec<u8>>)
    ensures
        r is None <==> (ct@.len() != 9720 || sk@.len() != 19888),
        r matches Some(ss) ==> ss@ == frodo_shared_secret(ct@, sk@) && ss@.len() == 16,
{
    let c = match frodokem640aes::Ciphertext::from_bytes(ct) {
        Ok(c) => c,
        Err(_) => return None,
    };
    let s = match frodokem640aes::SecretKey::from_bytes(sk) {
        Ok(s) => s,
        Err(_) => return None,
    };
    Some(frodokem640aes::decapsulate(&c, &s).as_bytes().to_vec())
}

/// Calls `StaticSecret::random_from_rng(OsRng)` and `to_bytes`: 32 bytes
/// from the operating system's random source. Nothing is claimed of them.
#[verifier::external_body]
pub(crate) fn x25519_random_secret() -> (out: [u8; 32]) {
    x25519_dalek::StaticSecret::random_from_rng(OsRng).to_bytes()
}

/// The X25519 public key of the secret scalar `sk` (clamped, times the base
/// point). Its value on given inputs is left unstated.
pub uninterp spec fn x25519_base(sk: Seq<u8>) -> Seq<u8>;

/// Calls `PublicKey::from(&StaticSecret::from(sk))`. Claimed: the bytes are
/// `x25519_base(sk)`.
#[verifier::external_body]
pub(crate) fn x25519_public_key(sk: &[u8; 32]) -> (out: [u8; 32])
    ensures
        out@ == x25519_base(sk@),
{
    let secret = x25519_dalek::StaticSecret::from(*sk);
    x25519_dalek::PublicKey::from(&secret).to_bytes()
}

/// The X25519 shared secret of the secret scalar `sk` and the peer point
/// `pk`. Its value on given inputs is left unstated.
pub uninterp spec fn x25519_dh(sk: Seq<u8>, pk: Seq<u8>) -> Seq<u8>;

/// Calls `StaticSecret::from(sk).diffie_hellman(&PublicKey::from(pk))`.
/// Claimed: the bytes are `x25519_dh(sk, pk)`.
#[verifier::external_body]
pub(crate) fn x25519_shared(sk: &[u8; 32], pk: &[u8; 32]) -> (out: [u8; 32])
    ensures
        out@ == x25519_dh(sk@, pk@),
{
    let secret = x25519_dalek::StaticSecret::from(*sk);
    secret.diffie_hellman(&x25519_dalek::PublicKey::from(*pk)).to_bytes()
}

} // verus!
