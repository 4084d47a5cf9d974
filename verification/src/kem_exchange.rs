//! The decisions of the one-round-trip KEM exchange between two gateways:
//!
//! ```text
//! responder                         initiator
//!   |--- be4(len) || public key ----->|
//!   |                                 |  encapsulate(pk) -> (ct, key)
//!   |<-- be4(len) || ciphertext ------|
//!   |  decapsulate(ct, sk) -> key     |
//!   |--- ACK (0x01) ----------------->|
//! ```
//!
//! The sockets, the waiting and the retries are the caller's; these
//! functions say what to send and what a received message means.
use crate::bytes::{append_bytes, be_bytes, be_encode, be_read, be_value, lemma_be_value_bound, lemma_byte_pow_values};
use crate::kem::{decapsulate, decapsulate_spec, derive_key_spec, encapsulate, key_result, FRODO_CIPHERTEXT_SIZE};
use crate::text::{dec, hex2, push_dec, push_hex2, push_str};
use vstd::prelude::*;

verus! {

/// The byte that acknowledges a completed exchange.
pub const KEM_ACK: u8 = 0x01;

/// Largest frame payload accepted.
pub const KEM_MAX_FRAME: usize = 65_536;

pub open spec fn msg_frame_too_large(n: nat) -> Seq<char> {
    "KEM frame too large: "@ + dec(n) + " bytes"@
}

/// The payload length announced by a 4-byte big-endian prefix; more than
/// `KEM_MAX_FRAME` bytes are refused.
pub fn frame_payload_len(prefix: &[u8; 4]) -> (r: Result<usize, String>)
    ensures
        match r {
            Ok(n) => n == be_value(prefix@) && n <= KEM_MAX_FRAME,
            Err(e) => be_value(prefix@) > KEM_MAX_FRAME && e@ == msg_frame_too_large(
                be_value(prefix@),
            ),
        },
{
    proof {
        lemma_be_value_bound(prefix@);
        lemma_byte_pow_values();
    }
    let n = be_read(prefix);
    if n > KEM_MAX_FRAME as u64 {
        let mut s = String::from_str("KEM frame too large: ");
        push_dec(&mut s, n);
        push_str(&mut s, " bytes");
        return Err(s);
    }
    Ok(n as usize)
}

/// A framed message: the payload's length (its low 32 bits, big-endian),
/// then the payload.
pub fn frame_message(data: &[u8]) -> (out: Vec<u8>)
    ensures
        out@ == be_encode(data@.len(), 4) + data@,
{
    let mut out = be_bytes(data.len() as u64, 4);
    append_bytes(&mut out, data);
    out
}

pub open spec fn msg_bad_ack(b: u8) -> Seq<char> {
    "KEM: unexpected ACK byte 0x"@ + hex2(b as nat)
}

/// Checks the responder's acknowledgement.
pub fn check_ack(b: u8) -> (r: Result<(), String>)
    ensures
        match r {
            Ok(()) => b == KEM_ACK,
            Err(e) => b != KEM_ACK && e@ == msg_bad_ack(b),
        },
{
    if b != KEM_ACK {
        let mut s = String::from_str("KEM: unexpected ACK byte 0x");
        push_hex2(&mut s, b);
        return Err(s);
    }
    Ok(())
}

/// The responder's step on the received ciphertext: the session key, or
/// the decapsulation error.
pub fn responder_session_key(ct: &[u8], sk: &[u8]) -> (r: Result<Vec<u64>, String>)
    ensures
        key_result(r) == match decapsulate_spec(ct@, sk@) {
            Ok(k) => Ok::<Seq<u64>, Seq<char>>(k),
            Err(e) => Err("KEM decapsulate: "@ + e),
        },
{
    match decapsulate(ct, sk) {
        Ok(k) => Ok(k),
        Err(e) => {
            let mut s = String::from_str("KEM decapsulate: ");
            push_str(&mut s, e.as_str());
            Err(s)
        },
    }
}

/// The initiator's step on the received public key: the framed ciphertext
/// to send and the session key, or the encapsulation error.
pub fn initiator_reply(pk: &[u8]) -> (r: Result<(Vec<u8>, Vec<u64>), String>)
    ensures
        match r {
            Ok((framed, key)) => {
                &&& pk@.len() == crate::kem::FRODO_PUBLIC_KEY_SIZE
                &&& framed@.len() == 4 + FRODO_CIPHERTEXT_SIZE
                &&& framed@.subrange(0, 4) == be_encode(FRODO_CIPHERTEXT_SIZE as nat, 4)
                &&& exists|ss: Seq<u8>| ss.len() == 16 && key@ == #[trigger] derive_key_spec(ss)
            },
            Err(e) => pk@.len() != crate::kem::FRODO_PUBLIC_KEY_SIZE && e@ == "KEM encapsulate: "@
                + crate::kem::msg_bad_pk(),
        },
{
    match encapsulate(pk) {
        Ok((ct, key)) => {
            let framed = frame_message(ct.as_slice());
            proof {
                crate::bytes::lemma_be_encode_len(ct@.len(), 4);
                assert(framed@.subrange(0, 4) =~= be_encode(ct@.len(), 4));
            }
            Ok((framed, key))
        },
        Err(e) => {
            let mut s = String::from_str("KEM encapsulate: ");
            push_str(&mut s, e.as_str());
            Err(s)
        },
    }
}

} // verus!
