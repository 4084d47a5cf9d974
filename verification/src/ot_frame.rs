//! OT framing: every industrial PDU travels as
//! `"NQ" || protocol(1) || device_id(8 BE) || seq(8 BE) || len(4 BE) || blob`
//! where `blob` is the v7 raw encryption of the PDU under the AAD
//! `protocol || device_id || seq`, so any change to the routing fields is
//! caught by the tag. Receivers refuse any sequence number not above the last
//! one seen for the device.
use crate::aead::{bytes_result, msg_ct_short};
use crate::bytes::{be_encode, be_read, be_value, byte_pow, lemma_byte_pow_values};
use crate::derive::{key_bytes_spec, max_keystream_len};
use crate::legacy::{
    cps_of_bytes, decrypt_raw, decrypt_raw_spec, encrypt_raw, lemma_v7_raw_roundtrip,
    msg_raw_too_long, msg_v7_exhausted, v7_exhaustible, v7_wire,
};
use crate::padding::MAX_PLAINTEXT_CODEPOINTS;
use crate::primes::{key_check, valid_key};
use crate::text::{dec, hex, hex2, push_dec, push_hex, push_hex2, push_str};
use std::collections::HashMap;
use vstd::prelude::*;

verus! {

broadcast use vstd::std_specs::hash::group_hash_axioms;

/// Industrial protocol carried inside the envelope.
#[derive(Debug, Clone, Copy, PartialEq, Eq, Hash, Structural)]
pub enum ProtocolId {
    ModbusTcp,
    Dnp3,
}

impl ProtocolId {
    /// Wire code: `0x01` for Modbus TCP, `0x02` for DNP3.
    pub open spec fn code_spec(self) -> u8 {
        match self {
            ProtocolId::ModbusTcp => 0x01,
            ProtocolId::Dnp3 => 0x02,
        }
    }

    pub fn code(self) -> (r: u8)
        ensures
            r == self.code_spec(),
    {
        match self {
            ProtocolId::ModbusTcp => 0x01,
            ProtocolId::Dnp3 => 0x02,
        }
    }

    pub fn from_u8(v: u8) -> (r: Option<Self>)
        ensures
            match r {
                Some(p) => p.code_spec() == v,
                None => v != 0x01 && v != 0x02,
            },
    {
        match v {
            0x01 => Some(ProtocolId::ModbusTcp),
            0x02 => Some(ProtocolId::Dnp3),
            _ => None,
        }
    }

    /// Name used in log lines.
    pub open spec fn name(self) -> Seq<char> {
        match self {
            ProtocolId::ModbusTcp => "MODBUS"@,
            ProtocolId::Dnp3 => "DNP3"@,
        }
    }

    pub fn as_str(&self) -> (r: &'static str)
        ensures
            r@ == self.name(),
    {
        match self {
            ProtocolId::ModbusTcp => "MODBUS",
            ProtocolId::Dnp3 => "DNP3",
        }
    }
}

/// Associated data bound into every frame.
#[derive(Debug, Clone, Copy)]
pub struct OtAad {
    pub protocol: ProtocolId,
    pub device_id: u64,
    pub seq: u64,
}

/// `protocol(1) || device_id(8 BE) || seq(8 BE)`.
pub open spec fn aad_spec(protocol: ProtocolId, device_id: u64, seq: u64) -> Seq<u8> {
    seq![protocol.code_spec()] + be_encode(device_id as nat, 8) + be_encode(seq as nat, 8)
}

impl OtAad {
    pub fn to_bytes(&self) -> (out: [u8; 17])
        ensures
            out@ == aad_spec(self.protocol, self.device_id, self.seq),
    {
        let mut v: Vec<u8> = Vec::new();
        v.push(self.protocol.code());
        let d = crate::bytes::be_bytes(self.device_id, 8);
        let s = crate::bytes::be_bytes(self.seq, 8);
        crate::bytes::append_bytes(&mut v, d.as_slice());
        crate::bytes::append_bytes(&mut v, s.as_slice());
        proof {
            crate::bytes::lemma_be_encode_len(self.device_id as nat, 8);
            crate::bytes::lemma_be_encode_len(self.seq as nat, 8);
            assert(v@ =~= aad_spec(self.protocol, self.device_id, self.seq));
        }
        let mut out = [0u8; 17];
        let mut i: usize = 0;
        while i < 17
            invariant
                i <= 17,
                v@.len() == 17,
                forall|j: int| 0 <= j < i ==> #[trigger] out@[j] == v@[j],
            decreases 17 - i,
        {
            out[i] = v[i];
            i = i + 1;
        }
        assert(out@ =~= v@);
        out
    }
}

/// First two bytes of every envelope, `"NQ"`.
pub const ENVELOPE_MAGIC: [u8; 2] = [0x4E, 0x51];

pub const ENVELOPE_MAGIC_0: u8 = 0x4E;

pub const ENVELOPE_MAGIC_1: u8 = 0x51;

/// magic(2) + protocol(1) + device_id(8) + seq(8) + length(4).
pub const ENVELOPE_HEADER_SIZE: usize = 23;

/// Sentinel device id meaning "every device without a key of its own".
pub const WILDCARD_DEVICE_ID: u64 = 0xFFFF_FFFF_FFFF_FFFF;

#[derive(Debug)]
pub enum FrameError {
    /// The tag did not verify: the frame is corrupt or tampered with.
    AuthenticationFailed { device_id: u64, protocol: ProtocolId, seq: u64 },
    /// The sequence number is not above the last one seen.
    ReplayDetected { device_id: u64, protocol: ProtocolId, seq: u64, last_seen: u64 },
    /// The envelope header is malformed.
    MalformedEnvelope(String),
    /// Encryption failed.
    CryptoError(String),
}

impl FrameError {
    /// The log line of the error.
    pub open spec fn message(self) -> Seq<char> {
        match self {
            FrameError::AuthenticationFailed { device_id, protocol, seq } => "AUTH_FAIL device_id=0x"@
                + hex(device_id as nat) + " proto="@ + protocol.name() + " seq="@ + dec(seq as nat),
            FrameError::ReplayDetected { device_id, protocol, seq, last_seen } =>
                "REPLAY device_id=0x"@ + hex(device_id as nat) + " proto="@ + protocol.name()
                + " seq="@ + dec(seq as nat) + " last_seen="@ + dec(last_seen as nat),
            FrameError::MalformedEnvelope(s) => "MALFORMED_ENVELOPE "@ + s@,
            FrameError::CryptoError(s) => "CRYPTO_ERROR "@ + s@,
        }
    }

    /// The log line of the error.
    pub fn to_string(&self) -> (s: String)
        ensures
            s@ == self.message(),
    {
        match self {
            FrameError::AuthenticationFailed { device_id, protocol, seq } => {
                let mut s = String::from_str("AUTH_FAIL device_id=0x");
                push_hex(&mut s, *device_id);
                push_str(&mut s, " proto=");
                push_str(&mut s, protocol.as_str());
                push_str(&mut s, " seq=");
                push_dec(&mut s, *seq);
                s
            },
            FrameError::ReplayDetected { device_id, protocol, seq, last_seen } => {
                let mut s = String::from_str("REPLAY device_id=0x");
                push_hex(&mut s, *device_id);
                push_str(&mut s, " proto=");
                push_str(&mut s, protocol.as_str());
                push_str(&mut s, " seq=");
                push_dec(&mut s, *seq);
                push_str(&mut s, " last_seen=");
                push_dec(&mut s, *last_seen);
                s
            },
            FrameError::MalformedEnvelope(m) => {
                let mut s = String::from_str("MALFORMED_ENVELOPE ");
                push_str(&mut s, m.as_str());
                s
            },
            FrameError::CryptoError(m) => {
                let mut s = String::from_str("CRYPTO_ERROR ");
                push_str(&mut s, m.as_str());
                s
            },
        }
    }
}

/// Map key of a (protocol, device) pair.
pub open spec fn device_key(protocol: ProtocolId, device_id: u64) -> u128 {
    ((protocol.code_spec() as nat) * 0x1_0000_0000_0000_0000 + (device_id as nat)) as u128
}

fn device_key_exec(protocol: ProtocolId, device_id: u64) -> (k: u128)
    ensures
        k == device_key(protocol, device_id),
{
    (protocol.code() as u128) * 0x1_0000_0000_0000_0000 + (device_id as u128)
}

proof fn lemma_device_key_injective(p1: ProtocolId, d1: u64, p2: ProtocolId, d2: u64)
    requires
        device_key(p1, d1) == device_key(p2, d2),
    ensures
        p1 == p2 && d1 == d2,
{
}

/// How often `(p, d)` occurs in `calls`.
pub open spec fn pair_count(calls: Seq<(ProtocolId, u64)>, p: ProtocolId, d: u64) -> nat
    decreases calls.len(),
{
    if calls.len() == 0 {
        0
    } else {
        pair_count(calls.drop_last(), p, d) + if calls.last() == (p, d) {
            1nat
        } else {
            0nat
        }
    }
}

/// Per-device sequence numbers: the last one sent and the last one
/// accepted, both zero for a device never seen.
pub struct SequenceCounter {
    send_state: HashMap<u128, u64>,
    recv_state: HashMap<u128, u64>,
}

impl SequenceCounter {
    /// The last sequence number handed out for the device.
    pub closed spec fn sent(self, protocol: ProtocolId, device_id: u64) -> u64 {
        if self.send_state@.contains_key(device_key(protocol, device_id)) {
            self.send_state@[device_key(protocol, device_id)]
        } else {
            0
        }
    }

    /// The last sequence number accepted from the device.
    pub closed spec fn last_seen(self, protocol: ProtocolId, device_id: u64) -> u64 {
        if self.recv_state@.contains_key(device_key(protocol, device_id)) {
            self.recv_state@[device_key(protocol, device_id)]
        } else {
            0
        }
    }

    pub fn new() -> (r: Self)
        ensures
            forall|p: ProtocolId, d: u64| #[trigger] r.sent(p, d) == 0,
            forall|p: ProtocolId, d: u64| #[trigger] r.last_seen(p, d) == 0,
    {
        SequenceCounter { send_state: HashMap::new(), recv_state: HashMap::new() }
    }

    /// The last sequence number handed out for the device (0 before the
    /// first).
    pub fn last_sent(&self, protocol: ProtocolId, device_id: u64) -> (r: u64)
        ensures
            r == self.sent(protocol, device_id),
    {
        let key = device_key_exec(protocol, device_id);
        match self.send_state.get(&key) {
            Some(v) => *v,
            None => 0,
        }
    }

    /// The next outgoing sequence number for the device: one more than the
    /// last.
    pub fn next_seq(&mut self, protocol: ProtocolId, device_id: u64) -> (r: u64)
        requires
            old(self).sent(protocol, device_id) < u64::MAX,
        ensures
            r == old(self).sent(protocol, device_id) + 1,
            next_seq_step(*old(self), *final(self), protocol, device_id),
            final(self).sent(protocol, device_id) == r,
            forall|p: ProtocolId, d: u64|
                (p, d) != (protocol, device_id) ==> #[trigger] final(self).sent(p, d) == old(
                    self,
                ).sent(p, d),
            forall|p: ProtocolId, d: u64| #[trigger]
                final(self).last_seen(p, d) == old(self).last_seen(p, d),
    {
        let key = device_key_exec(protocol, device_id);
        let cur = match self.send_state.get(&key) {
            Some(v) => *v,
            None => 0,
        };
        let next = cur + 1;
        self.send_state.insert(key, next);
        proof {
            assert forall|p: ProtocolId, d: u64|
                (p, d) != (protocol, device_id) implies #[trigger] self.sent(p, d) == old(
                self,
            ).sent(p, d) by {
                if device_key(p, d) == key {
                    lemma_device_key_injective(p, d, protocol, device_id);
                }
            }
        }
        next
    }

    /// Accepts `seq` only if it is above the last one seen for the device,
    /// and then records it.
    pub fn validate_recv(&mut self, protocol: ProtocolId, device_id: u64, seq: u64) -> (r: Result<
        (),
        FrameError,
    >)
        ensures
            seq <= old(self).last_seen(protocol, device_id) ==> (r matches Err(
                FrameError::ReplayDetected { device_id: d, protocol: p, seq: s, last_seen: l },
            ) && d == device_id && p == protocol && s == seq && l == old(self).last_seen(
                protocol,
                device_id,
            )) && *final(self) == *old(self),
            seq > old(self).last_seen(protocol, device_id) ==> r is Ok && final(self).last_seen(
                protocol,
                device_id,
            ) == seq && (forall|p: ProtocolId, d: u64|
                (p, d) != (protocol, device_id) ==> #[trigger] final(self).last_seen(p, d) == old(
                    self,
                ).last_seen(p, d)) && (forall|p: ProtocolId, d: u64| #[trigger]
                final(self).sent(p, d) == old(self).sent(p, d)),
    {
        let key = device_key_exec(protocol, device_id);
        let last = match self.recv_state.get(&key) {
            Some(v) => *v,
            None => 0,
        };
        if seq <= last {
            return Err(FrameError::ReplayDetected { device_id, protocol, seq, last_seen: last });
        }
        self.recv_state.insert(key, seq);
        proof {
            assert forall|p: ProtocolId, d: u64|
                (p, d) != (protocol, device_id) implies #[trigger] self.last_seen(p, d) == old(
                self,
            ).last_seen(p, d) by {
                if device_key(p, d) == key {
                    lemma_device_key_injective(p, d, protocol, device_id);
                }
            }
        }
        Ok(())
    }
}

/// After a sequence number is accepted for a device, it and every smaller
/// one are refused for that device.
pub proof fn lemma_replay_refused(
    c1: SequenceCounter,
    c2: SequenceCounter,
    protocol: ProtocolId,
    device_id: u64,
    seq: u64,
    later: u64,
)
    requires
        seq > c1.last_seen(protocol, device_id),
        c2.last_seen(protocol, device_id) == seq,
        later <= seq,
    ensures
        later <= c2.last_seen(protocol, device_id),
{
}

impl Default for SequenceCounter {
    fn default() -> (r: Self)
        ensures
            forall|p: ProtocolId, d: u64| #[trigger] r.sent(p, d) == 0,
            forall|p: ProtocolId, d: u64| #[trigger] r.last_seen(p, d) == 0,
    {
        Self::new()
    }
}

/// What one `next_seq(p, d)` does to the counters: the count of `(p, d)`
/// goes up by one and nothing else changes.
pub open spec fn next_seq_step(
    old: SequenceCounter,
    new: SequenceCounter,
    p: ProtocolId,
    d: u64,
) -> bool {
    &&& new.sent(p, d) == old.sent(p, d) + 1
    &&& forall|q: ProtocolId, e: u64|
        (q, e) != (p, d) ==> #[trigger] new.sent(q, e) == old.sent(q, e)
    &&& forall|q: ProtocolId, e: u64| #[trigger] new.last_seen(q, e) == old.last_seen(q, e)
}

/// Each `(protocol, device_id)` pair counts 1, 2, 3, ... on its own: after a
/// run of `next_seq` calls from fresh counters, the `i`-th call returned
/// how often its pair occurs among the first `i + 1` calls, and every pair's
/// count is how often it was called.
pub proof fn lemma_next_seq_counts(states: Seq<SequenceCounter>, calls: Seq<(ProtocolId, u64)>)
    requires
        states.len() == calls.len() + 1,
        forall|q: ProtocolId, e: u64| #[trigger] states[0].sent(q, e) == 0,
        forall|i: int|
            0 <= i < calls.len() ==> #[trigger] next_seq_step(
                states[i],
                states[i + 1],
                calls[i].0,
                calls[i].1,
            ),
    ensures
        forall|q: ProtocolId, e: u64| #[trigger] states.last().sent(q, e) == pair_count(calls, q, e),
        forall|i: int|
            0 <= i < calls.len() ==> #[trigger] states[i + 1].sent(calls[i].0, calls[i].1)
                == pair_count(calls.take(i + 1), calls[i].0, calls[i].1),
    decreases calls.len(),
{
    if calls.len() > 0 {
        let n = calls.len() - 1;
        let sub_states = states.take(n + 1);
        let sub_calls = calls.take(n as int);
        assert forall|i: int| 0 <= i < sub_calls.len() implies #[trigger] next_seq_step(
            sub_states[i],
            sub_states[i + 1],
            sub_calls[i].0,
            sub_calls[i].1,
        ) by {
            assert(next_seq_step(states[i], states[i + 1], calls[i].0, calls[i].1));
        }
        lemma_next_seq_counts(sub_states, sub_calls);
        assert(calls.drop_last() =~= sub_calls);
        assert(next_seq_step(states[n as int], states[n + 1], calls[n as int].0, calls[n as int].1));
        assert forall|q: ProtocolId, e: u64| #[trigger] states.last().sent(q, e) == pair_count(
            calls,
            q,
            e,
        ) by {
            assert(sub_states.last().sent(q, e) == pair_count(sub_calls, q, e));
            if (q, e) != (calls[n as int].0, calls[n as int].1) {
                assert(states[n + 1].sent(q, e) == states[n as int].sent(q, e));
            }
        }
        assert forall|i: int| 0 <= i < calls.len() implies #[trigger] states[i + 1].sent(
            calls[i].0,
            calls[i].1,
        ) == pair_count(calls.take(i + 1), calls[i].0, calls[i].1) by {
            if i < n {
                assert(sub_states[i + 1] == states[i + 1]);
                assert(sub_calls[i] == calls[i]);
                assert(sub_calls.take(i + 1) =~= calls.take(i + 1));
                assert(sub_states[i + 1].sent(sub_calls[i].0, sub_calls[i].1) == pair_count(
                    sub_calls.take(i + 1),
                    sub_calls[i].0,
                    sub_calls[i].1,
                ));
            } else {
                assert(calls.take(i + 1) =~= calls);
                assert(states.last() == states[i + 1]);
                assert(states.last().sent(calls[i].0, calls[i].1) == pair_count(
                    calls,
                    calls[i].0,
                    calls[i].1,
                ));
            }
        }
    }
}

/// Source of the prime-tuple key of a device.
pub trait KeyStore {
    fn load(&self, device_id: u64) -> Result<Vec<u64>, String>;
}


/// Keys per device id, as read from a key file.
#[derive(Debug)]
pub struct FileKeyStore {
    data: HashMap<u64, Vec<u64>>,
}

impl FileKeyStore {
    /// The key of each device id.
    pub closed spec fn keys(self) -> Map<u64, Seq<u64>> {
        Map::new(|d: u64| self.data@.contains_key(d), |d: u64| self.data@[d]@)
    }

    pub fn new() -> (r: Self)
        ensures
            r.keys() == Map::<u64, Seq<u64>>::empty(),
    {
        let r = FileKeyStore { data: HashMap::new() };
        assert(r.keys() =~= Map::<u64, Seq<u64>>::empty());
        r
    }

    /// Installs (or replaces) the key of `device_id`.
    pub fn insert(&mut self, device_id: u64, key: Vec<u64>)
        ensures
            final(self).keys() == old(self).keys().insert(device_id, key@),
    {
        let ghost k = key@;
        self.data.insert(device_id, key);
        assert(self.keys() =~= old(self).keys().insert(device_id, k));
    }
}

impl KeyStore for FileKeyStore {
    /// The key of `device_id`, or an error naming it.
    fn load(&self, device_id: u64) -> (r: Result<Vec<u64>, String>)
        ensures
            self.keys().contains_key(device_id) ==> (r matches Ok(k) && k@ == self.keys()[device_id]),
            !self.keys().contains_key(device_id) ==> (r matches Err(e) && e@ == "no key for device_id "@
                + dec(device_id as nat)),
    {
        match self.data.get(&device_id) {
            Some(k) => Ok(crate::primes::copy_primes(k.as_slice())),
            None => {
                let mut s = String::from_str("no key for device_id ");
                push_dec(&mut s, device_id);
                Err(s)
            },
        }
    }
}

/// Session keys established by key exchange, per device or under
/// `WILDCARD_DEVICE_ID` for every device without its own.
pub struct SessionKeyStore {
    inner: HashMap<u64, Vec<u64>>,
}

impl SessionKeyStore {
    /// The key installed for each device id.
    pub closed spec fn keys(self) -> Map<u64, Seq<u64>> {
        Map::new(|d: u64| self.inner@.contains_key(d), |d: u64| self.inner@[d]@)
    }

    pub fn new() -> (r: Self)
        ensures
            r.keys() == Map::<u64, Seq<u64>>::empty(),
    {
        let r = SessionKeyStore { inner: HashMap::new() };
        assert(r.keys() =~= Map::<u64, Seq<u64>>::empty());
        r
    }

    /// Installs (or replaces) the key of `device_id`.
    pub fn insert(&mut self, device_id: u64, key: Vec<u64>)
        ensures
            final(self).keys() == old(self).keys().insert(device_id, key@),
    {
        let ghost k = key@;
        self.inner.insert(device_id, key);
        assert(self.keys() =~= old(self).keys().insert(device_id, k));
    }

    /// At least one key (the wildcard included) is installed.
    pub fn is_ready(&self) -> (r: bool)
        ensures
            r == !self.keys().is_empty(),
    {
        proof {
            if self.inner@.len() == 0 {
                assert(self.inner@ =~= Map::<u64, Vec<u64>>::empty());
                assert(self.keys() =~= Map::<u64, Seq<u64>>::empty());
            } else {
                assert(self.inner@.dom().finite());
                let d = self.inner@.dom().choose();
                vstd::set::axiom_set_choose_len(self.inner@.dom());
                assert(self.keys().contains_key(d));
            }
        }
        self.inner.len() != 0
    }
}

impl Default for SessionKeyStore {
    fn default() -> (r: Self)
        ensures
            r.keys() == Map::<u64, Seq<u64>>::empty(),
    {
        Self::new()
    }
}

impl KeyStore for SessionKeyStore {
    /// The key of `device_id`, else the wildcard key, else an error.
    fn load(&self, device_id: u64) -> (r: Result<Vec<u64>, String>)
        ensures
            self.keys().contains_key(device_id) ==> (r matches Ok(k) && k@ == self.keys()[device_id]),
            !self.keys().contains_key(device_id) && self.keys().contains_key(WILDCARD_DEVICE_ID)
                ==> (r matches Ok(k) && k@ == self.keys()[WILDCARD_DEVICE_ID]),
            !self.keys().contains_key(device_id) && !self.keys().contains_key(WILDCARD_DEVICE_ID)
                ==> (r matches Err(e) && e@ == "no session key for device_id "@ + dec(
                device_id as nat,
            ) + " (KEM exchange not yet completed?)"@),
    {
        match self.inner.get(&device_id) {
            Some(k) => {
                return Ok(crate::primes::copy_primes(k.as_slice()));
            },
            None => {},
        }
        match self.inner.get(&WILDCARD_DEVICE_ID) {
            Some(k) => Ok(crate::primes::copy_primes(k.as_slice())),
            None => {
                let mut s = String::from_str("no session key for device_id ");
                push_dec(&mut s, device_id);
                push_str(&mut s, " (KEM exchange not yet completed?)");
                Err(s)
            },
        }
    }
}

/// The envelope around `blob` for `aad` (its length field is the low 32 bits
/// of `blob.len()`).
pub open spec fn envelope_spec(protocol: ProtocolId, device_id: u64, seq: u64, blob: Seq<u8>) -> Seq<
    u8,
> {
    seq![ENVELOPE_MAGIC_0, ENVELOPE_MAGIC_1] + aad_spec(protocol, device_id, seq) + be_encode(
        blob.len(),
        4,
    ) + blob
}

/// `env` is an envelope of `aad` whose blob is a v7 raw encryption of `pdu`
/// under `key` and the AAD bytes, with the nonce it carries.
pub open spec fn sealed_envelope(env: Seq<u8>, aad: OtAad, key: Seq<u64>, pdu: Seq<u8>) -> bool {
    let blob = env.subrange(23, env.len() as int);
    &&& 39 <= env.len() <= 23 + 0xFFFF_FFFF
    &&& env == envelope_spec(aad.protocol, aad.device_id, aad.seq, blob)
    &&& v7_wire(
        key_bytes_spec(key),
        blob.subrange(0, 16),
        key,
        aad_spec(aad.protocol, aad.device_id, aad.seq),
        cps_of_bytes(pdu),
    ) == Some(blob)
}

/// The refusal of a blob that the 32-bit length field cannot describe.
pub open spec fn msg_blob_too_long() -> Seq<char> {
    "encrypted blob exceeds the 32-bit envelope length field"@
}

/// Some 16-byte nonce gives a v7 blob for `cps` under `key` and `aad` longer
/// than a 32-bit length field can describe.
pub open spec fn v7_oversized(key: Seq<u64>, aad: Seq<u8>, cps: Seq<u32>) -> bool {
    exists|nonce: Seq<u8>|
        nonce.len() == 16 && (#[trigger] v7_wire(key_bytes_spec(key), nonce, key, aad, cps) matches Some(
            b,
        ) && b.len() > 0xFFFF_FFFF)
}

/// What sealing `pdu` may give: the key error, the length error, an
/// envelope sealed for `aad`, or (only where some nonce leads there) the
/// error of an emitter that left the position range or of a blob too long
/// for the length field.
pub open spec fn wrap_outcome(
    pdu: Seq<u8>,
    aad: OtAad,
    key: Seq<u64>,
    r: Result<Vec<u8>, FrameError>,
) -> bool {
    match key_check(key) {
        Err(m) => r matches Err(FrameError::CryptoError(e)) && e@ == m,
        Ok(_) => if pdu.len() > MAX_PLAINTEXT_CODEPOINTS {
            r matches Err(FrameError::CryptoError(e)) && e@ == msg_raw_too_long()
        } else {
            match r {
                Ok(env) => sealed_envelope(env@, aad, key, pdu),
                Err(FrameError::CryptoError(e)) => {
                    ||| e@ == msg_v7_exhausted() && v7_exhaustible(
                        key,
                        aad_spec(aad.protocol, aad.device_id, aad.seq),
                        cps_of_bytes(pdu),
                    )
                    ||| e@ == msg_blob_too_long() && v7_oversized(
                        key,
                        aad_spec(aad.protocol, aad.device_id, aad.seq),
                        cps_of_bytes(pdu),
                    )
                },
                Err(_) => false,
            }
        },
    }
}

/// Seals a PDU into an envelope whose length field is the blob's length:
/// refused, as key validation refuses the key, as the v7 encryptor refuses
/// the PDU, or when the blob would not fit the 32-bit length field.
pub fn wrap_pdu(pdu: &[u8], aad: OtAad, key: &[u64]) -> (r: Result<Vec<u8>, FrameError>)
    ensures
        wrap_outcome(pdu@, aad, key@, r),
{
    let aad_bytes = aad.to_bytes();
    let blob = match encrypt_raw(pdu, key, &aad_bytes) {
        Ok(b) => b,
        Err(e) => {
            return Err(FrameError::CryptoError(e));
        },
    };
    if blob.len() > 0xFFFF_FFFF {
        proof {
            assert(v7_wire(
                key_bytes_spec(key@),
                blob@.subrange(0, 16),
                key@,
                aad_bytes@,
                cps_of_bytes(pdu@),
            ) == Some(blob@));
        }
        return Err(
            FrameError::CryptoError(
                String::from_str("encrypted blob exceeds the 32-bit envelope length field"),
            ),
        );
    }
    let mut envelope: Vec<u8> = Vec::new();
    envelope.push(ENVELOPE_MAGIC_0);
    envelope.push(ENVELOPE_MAGIC_1);
    crate::bytes::append_bytes(&mut envelope, &aad_bytes);
    let lb = crate::bytes::be_bytes((blob.len() as u64) % 0x1_0000_0000, 4);
    proof {
        lemma_byte_pow_values();
        lemma_be_encode_mod(blob@.len(), 4);
    }
    crate::bytes::append_bytes(&mut envelope, lb.as_slice());
    crate::bytes::append_bytes(&mut envelope, blob.as_slice());
    proof {
        crate::bytes::lemma_be_encode_len(blob@.len(), 4);
        let env = envelope@;
        assert(env =~= envelope_spec(aad.protocol, aad.device_id, aad.seq, blob@));
        assert(env.subrange(23, env.len() as int) =~= blob@);
    }
    Ok(envelope)
}

proof fn lemma_be_encode_mod(x: nat, n: nat)
    ensures
        be_encode(x % byte_pow(n), n) == be_encode(x, n),
{
    crate::bytes::lemma_byte_pow_pos(n);
    crate::bytes::lemma_be_value_encode(x, n);
    crate::bytes::lemma_be_value_encode(x % byte_pow(n), n);
    vstd::arithmetic::div_mod::lemma_mod_twice(x as int, byte_pow(n) as int);
    crate::bytes::lemma_be_encode_value(be_encode(x, n));
    crate::bytes::lemma_be_encode_value(be_encode(x % byte_pow(n), n));
    crate::bytes::lemma_be_encode_len(x, n);
    crate::bytes::lemma_be_encode_len(x % byte_pow(n), n);
}

/// What the envelope header says, or why it is malformed.
pub open spec fn parse_spec(buf: Seq<u8>) -> Result<(ProtocolId, u64, u64, nat, nat), Seq<char>> {
    if buf.len() < 23 {
        Err("buffer too short: "@ + dec(buf.len()) + " < "@ + dec(23))
    } else if !(buf[0] == ENVELOPE_MAGIC_0 && buf[1] == ENVELOPE_MAGIC_1) {
        Err("bad magic: "@ + hex2(buf[0] as nat) + hex2(buf[1] as nat))
    } else if !(buf[2] == 0x01 || buf[2] == 0x02) {
        Err("unknown protocol_id 0x"@ + hex2(buf[2] as nat))
    } else {
        let p = if buf[2] == 0x01 {
            ProtocolId::ModbusTcp
        } else {
            ProtocolId::Dnp3
        };
        let blob_len = be_value(buf.subrange(19, 23));
        if buf.len() < 23 + blob_len {
            Err(
                "truncated blob: have "@ + dec((buf.len() - 23) as nat) + " want "@ + dec(
                    blob_len,
                ),
            )
        } else {
            Ok(
                (
                    p,
                    be_value(buf.subrange(3, 11)) as u64,
                    be_value(buf.subrange(11, 19)) as u64,
                    23,
                    blob_len,
                ),
            )
        }
    }
}

/// Parses the envelope header: `(protocol, device_id, seq, blob offset,
/// blob length)`.
pub fn parse_envelope_header(buf: &[u8]) -> (r: Result<(ProtocolId, u64, u64, usize, usize), FrameError>)
    ensures
        match r {
            Ok((p, d, s, off, len)) => parse_spec(buf@) == Ok::<
                (ProtocolId, u64, u64, nat, nat),
                Seq<char>,
            >((p, d, s, off as nat, len as nat)),
            Err(FrameError::MalformedEnvelope(e)) => parse_spec(buf@) == Err::<
                (ProtocolId, u64, u64, nat, nat),
                Seq<char>,
            >(e@),
            Err(_) => false,
        },
{
    if buf.len() < ENVELOPE_HEADER_SIZE {
        let mut s = String::from_str("buffer too short: ");
        push_dec(&mut s, buf.len() as u64);
        push_str(&mut s, " < ");
        push_dec(&mut s, 23);
        return Err(FrameError::MalformedEnvelope(s));
    }
    if !(buf[0] == ENVELOPE_MAGIC_0 && buf[1] == ENVELOPE_MAGIC_1) {
        let mut s = String::from_str("bad magic: ");
        push_hex2(&mut s, buf[0]);
        push_hex2(&mut s, buf[1]);
        return Err(FrameError::MalformedEnvelope(s));
    }
    let protocol = match ProtocolId::from_u8(buf[2]) {
        Some(p) => p,
        None => {
            let mut s = String::from_str("unknown protocol_id 0x");
            push_hex2(&mut s, buf[2]);
            return Err(FrameError::MalformedEnvelope(s));
        },
    };
    let device_id = be_read(&buf[3..11]);
    let seq = be_read(&buf[11..19]);
    let blob_len = be_read(&buf[19..23]);
    proof {
        crate::bytes::lemma_be_value_bound(buf@.subrange(19, 23));
        lemma_byte_pow_values();
    }
    if (buf.len() as u64) - 23 < blob_len {
        let mut s = String::from_str("truncated blob: have ");
        push_dec(&mut s, (buf.len() - ENVELOPE_HEADER_SIZE) as u64);
        push_str(&mut s, " want ");
        push_dec(&mut s, blob_len);
        return Err(FrameError::MalformedEnvelope(s));
    }
    Ok((protocol, device_id, seq, ENVELOPE_HEADER_SIZE, blob_len as usize))
}

/// `new` is `old` with the last sequence number accepted from `(p, d)`
/// raised to `s` and nothing else changed.
pub open spec fn recv_advanced(
    old: SequenceCounter,
    new: SequenceCounter,
    p: ProtocolId,
    d: u64,
    s: u64,
) -> bool {
    &&& new.last_seen(p, d) == s
    &&& forall|q: ProtocolId, e: u64|
        (q, e) != (p, d) ==> #[trigger] new.last_seen(q, e) == old.last_seen(q, e)
    &&& forall|q: ProtocolId, e: u64| #[trigger] new.sent(q, e) == old.sent(q, e)
}

/// The PDU that opening `buf` under `key` gives, with the counters `c`
/// before: the header parses, its sequence number is fresh, and the blob
/// verifies and decrypts. `None` for every refusal.
pub open spec fn unwrap_opens(buf: Seq<u8>, key: Seq<u64>, c: SequenceCounter) -> Option<Seq<u8>> {
    match parse_spec(buf) {
        Err(_) => None,
        Ok((p, d, s, off, len)) => if s <= c.last_seen(p, d) {
            None
        } else {
            match decrypt_raw_spec(key, aad_spec(p, d, s), buf.subrange(23, (23 + len) as int)) {
                Ok(pdu) => Some(pdu),
                Err(_) => None,
            }
        },
    }
}

/// How opening `buf` changes the counters from `old` to `new`: a fresh
/// sequence number of a parsed header is recorded, whether or not the blob
/// then verifies; a malformed envelope or a replay changes nothing.
pub open spec fn unwrap_counters(buf: Seq<u8>, old: SequenceCounter, new: SequenceCounter) -> bool {
    match parse_spec(buf) {
        Err(_) => new == old,
        Ok((p, d, s, off, len)) => if s <= old.last_seen(p, d) {
            new == old
        } else {
            recv_advanced(old, new, p, d, s)
        },
    }
}

/// Opens an envelope: parses the header, refuses replays, then verifies and
/// decrypts the blob under the AAD of the header fields.
pub fn unwrap_pdu(buf: &[u8], key: &[u64], counters: &mut SequenceCounter) -> (r: Result<
    Vec<u8>,
    FrameError,
>)
    ensures
        match parse_spec(buf@) {
            Err(m) => (match r {
                Err(FrameError::MalformedEnvelope(e)) => e@ == m,
                _ => false,
            }) && (*final(counters) == *old(counters)),
            Ok((p, d, s, off, len)) => if s <= old(counters).last_seen(p, d) {
                (match r {
                    Err(FrameError::ReplayDetected { device_id, protocol, seq, last_seen }) => {
                        &&& device_id == d
                        &&& protocol == p
                        &&& seq == s
                        &&& last_seen == old(counters).last_seen(p, d)
                    },
                    _ => false,
                }) && (*final(counters) == *old(counters))
            } else {
                &&& recv_advanced(*old(counters), *final(counters), p, d, s)
                &&& match decrypt_raw_spec(key@, aad_spec(p, d, s), buf@.subrange(23, (23 + len) as int)) {
                    Ok(pdu) => match r {
                        Ok(v) => v@ == pdu,
                        _ => false,
                    },
                    Err(_) => match r {
                        Err(FrameError::AuthenticationFailed { device_id, protocol, seq }) => device_id
                            == d && protocol == p && seq == s,
                        _ => false,
                    },
                }
            },
        },
        match unwrap_opens(buf@, key@, *old(counters)) {
            Some(pdu) => r matches Ok(v) && v@ == pdu,
            None => r is Err,
        },
        unwrap_counters(buf@, *old(counters), *final(counters)),
{
    let (protocol, device_id, seq, blob_start, blob_len) = match parse_envelope_header(buf) {
        Ok(h) => h,
        Err(e) => {
            return Err(e);
        },
    };
    match counters.validate_recv(protocol, device_id, seq) {
        Ok(()) => {},
        Err(e) => {
            return Err(e);
        },
    }
    let total = buf.len();
    let blob = &buf[blob_start..blob_start + blob_len];
    let aad = OtAad { protocol, device_id, seq };
    let aad_bytes = aad.to_bytes();
    proof {
        lemma_byte_pow_values();
        crate::bytes::lemma_be_value_bound(buf@.subrange(19, 23));
    }
    match decrypt_raw(blob, key, &aad_bytes) {
        Ok(v) => Ok(v),
        Err(_) => Err(FrameError::AuthenticationFailed { device_id, protocol, seq }),
    }
}

/// Opening a sealed envelope gives back the PDU.
pub proof fn lemma_wrap_unwrap(env: Seq<u8>, aad: OtAad, key: Seq<u64>, pdu: Seq<u8>)
    requires
        sealed_envelope(env, aad, key, pdu),
        valid_key(key),
        pdu.len() <= MAX_PLAINTEXT_CODEPOINTS,
    ensures
        parse_spec(env) == Ok::<(ProtocolId, u64, u64, nat, nat), Seq<char>>(
            (aad.protocol, aad.device_id, aad.seq, 23, (env.len() - 23) as nat),
        ),
        decrypt_raw_spec(
            key,
            aad_spec(aad.protocol, aad.device_id, aad.seq),
            env.subrange(23, env.len() as int),
        ) == Ok::<Seq<u8>, Seq<char>>(pdu),
{
    let blob = env.subrange(23, env.len() as int);
    lemma_byte_pow_values();
    crate::bytes::lemma_be_encode_len(aad.device_id as nat, 8);
    crate::bytes::lemma_be_encode_len(aad.seq as nat, 8);
    crate::bytes::lemma_be_encode_len(blob.len(), 4);
    assert(env.subrange(3, 11) =~= be_encode(aad.device_id as nat, 8));
    assert(env.subrange(11, 19) =~= be_encode(aad.seq as nat, 8));
    assert(env.subrange(19, 23) =~= be_encode(blob.len(), 4));
    crate::bytes::lemma_be_value_encode(aad.device_id as nat, 8);
    crate::bytes::lemma_be_value_encode(aad.seq as nat, 8);
    crate::bytes::lemma_be_value_encode(blob.len(), 4);
    vstd::arithmetic::div_mod::lemma_small_mod(aad.device_id as nat, byte_pow(8));
    vstd::arithmetic::div_mod::lemma_small_mod(aad.seq as nat, byte_pow(8));
    vstd::arithmetic::div_mod::lemma_small_mod(blob.len(), byte_pow(4));
    assert(env[2] == aad.protocol.code_spec());
    lemma_v7_raw_roundtrip(
        key,
        blob.subrange(0, 16),
        aad_spec(aad.protocol, aad.device_id, aad.seq),
        pdu,
    );
}

} // verus!
