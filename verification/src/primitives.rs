//! The calls this library makes into outside code: HMAC-SHA256 (hmac, sha2),
//! constant-time comparison (subtle), the operating-system random source
//! (rand), and the few std operations on `char` and `String` that vstd does
//! not specify. Every item here is trusted; its doc comment says what it
//! claims.
use hmac::{Hmac, Mac};
use rand::distributions::{Distribution, Uniform};
use rand::RngCore;
use sha2::Sha256;
use subtle::ConstantTimeEq;
use vstd::prelude::*;

verus! {

/// HMAC-SHA256 of `data` under `key`, as computed by the `hmac` crate over
/// `sha2::Sha256` (RFC 2104). Its value on given inputs is left unstated.
pub uninterp spec fn hmac_sha256(key: Seq<u8>, data: Seq<u8>) -> Seq<u8>;

/// The 32 bytes of `hmac_sha256(key, data)`.
pub open spec fn digest(key: Seq<u8>, data: Seq<u8>) -> Seq<u8> {
    Seq::new(32, |i: int| hmac_sha256(key, data)[i])
}

/// Calls `Hmac::<Sha256>::new_from_slice`, `update` and `finalize`.
/// Claimed: the 32-byte tag equals `hmac_sha256(key, data)`. HMAC accepts a
/// key of any length (`new_from_slice` never fails for it), so no input is
/// excluded.
#[verifier::external_body]
pub(crate) fn hmac_digest(key: &[u8], data: &[u8]) -> (out: [u8; 32])
    ensures
        out@ == hmac_sha256(key@, data@),
{
    let mut mac = <Hmac<Sha256> as Mac>::new_from_slice(key).expect("HMAC takes any key length");
    mac.update(data);
    let tag = mac.finalize().into_bytes();
    let mut out = [0u8; 32];
    out.copy_from_slice(&tag);
    out
}

/// Calls `subtle::ConstantTimeEq::ct_eq` on two byte slices. Claimed: the
/// answer is `true` exactly when both slices have the same length and the
/// same bytes (the crate's source returns `0` on a length mismatch and the
/// conjunction of bytewise equality otherwise).
#[verifier::external_body]
fn subtle_ct_eq(a: &[u8], b: &[u8]) -> (r: bool)
    ensures
        r == (a@ == b@),
{
    a.ct_eq(b).into()
}

/// Constant-time comparison of two byte strings: `true` exactly when they
/// have the same length and the same bytes; a length mismatch is `false`
/// whatever the common prefix.
pub fn ct_eq_bytes(a: &[u8], b: &[u8]) -> (r: bool)
    ensures
        r == (a@ == b@),
{
    subtle_ct_eq(a, b)
}

/// Fills 16 bytes from `rand::thread_rng().fill_bytes`. Nothing is claimed
/// of the bytes: they come from the operating system's random source.
#[verifier::external_body]
pub(crate) fn random_16() -> (out: [u8; 16]) {
    let mut out = [0u8; 16];
    rand::thread_rng().fill_bytes(&mut out);
    out
}

/// Fills 32 bytes from `rand::thread_rng().fill_bytes`. Nothing is claimed
/// of the bytes: they come from the operating system's random source.
#[verifier::external_body]
pub(crate) fn random_32() -> (out: [u8; 32]) {
    let mut out = [0u8; 32];
    rand::thread_rng().fill_bytes(&mut out);
    out
}

/// One draw of `rand::distributions::Uniform::new_inclusive(low, high)` from
/// `rand::thread_rng()`. Claimed: the value lies in `[low, high]` (the
/// crate documents the inclusive range, and panics only when `low > high`,
/// which `requires` rules out). Which value comes out is left unstated.
#[verifier::external_body]
pub(crate) fn uniform_inclusive(low: u64, high: u64) -> (r: u64)
    requires
        low <= high,
    ensures
        low <= r <= high,
{
    Uniform::new_inclusive(low, high).sample(&mut rand::thread_rng())
}

/// A Unicode scalar value: a code point outside the surrogate range.
pub open spec fn is_scalar(c: nat) -> bool {
    c <= 0x10FFFF && !(0xD800 <= c && c <= 0xDFFF)
}

/// Calls `char::from_u32`. Claimed, as std documents it: `Some` of the
/// character with that code point exactly when the value is a Unicode scalar
/// value, `None` otherwise.
#[verifier::external_body]
pub(crate) fn char_from_u32(c: u32) -> (r: Option<char>)
    ensures
        is_scalar(c as nat) ==> r == Some(c as char),
        !is_scalar(c as nat) ==> r is None,
{
    char::from_u32(c)
}

/// Calls `String::push`. Claimed, as std documents it: the character is
/// appended at the end.
#[verifier::external_body]
pub(crate) fn push_char(s: &mut String, c: char)
    ensures
        final(s)@ == old(s)@.push(c),
{
    s.push(c)
}

} // verus!
