//! The decisions of the bump-in-the-wire gateway: which key source a
//! configuration selects, what an incoming envelope announces before it is
//! opened, how an unwrapped Modbus PDU is framed again, and the CEF line of
//! a security event, and for each frame what the ingress and egress sides
//! do with it. Sockets, tasks, key loading and timers are the caller's.
use crate::bytes::{be_read, be_value};
use crate::ot_frame::{
    unwrap_counters, unwrap_opens, unwrap_pdu, wrap_outcome, wrap_pdu, FrameError, OtAad,
    ProtocolId, SequenceCounter, ENVELOPE_HEADER_SIZE, ENVELOPE_MAGIC_0, ENVELOPE_MAGIC_1,
};
use crate::protocols::dnp3::{crc16_spec, extract_payload, header_accepted, le16, DnpError};
use crate::protocols::modbus::{be16, be16_bytes, extract_pdu, reconstruct, MbapHeader, ModbusError};
use crate::text::{dec, push_dec, push_str};
use vstd::prelude::*;

verus! {

/// Whether the gateway establishes its keys by KEM: an ingress gateway
/// with a KEM peer, or an egress gateway with a KEM listen address.
pub open spec fn uses_kem_spec(mode: Seq<char>, kem_peer_addr: Seq<char>, kem_listen_addr: Seq<char>) -> bool {
    if mode == "ingress"@ {
        kem_peer_addr.len() > 0
    } else if mode == "egress"@ {
        kem_listen_addr.len() > 0
    } else {
        false
    }
}

fn str_eq(a: &str, b: &str) -> (r: bool)
    ensures
        r == (a@ == b@),
{
    let n = a.unicode_len();
    if n != b.unicode_len() {
        return false;
    }
    let mut i: usize = 0;
    while i < n
        invariant
            i <= n == a@.len() == b@.len(),
            forall|j: int| 0 <= j < i ==> a@[j] == b@[j],
        decreases n - i,
    {
        if a.get_char(i) != b.get_char(i) {
            return false;
        }
        i = i + 1;
    }
    assert(a@ =~= b@);
    true
}

/// Whether the gateway establishes its keys by KEM.
pub fn uses_kem(mode: &str, kem_peer_addr: &str, kem_listen_addr: &str) -> (r: bool)
    ensures
        r == uses_kem_spec(mode@, kem_peer_addr@, kem_listen_addr@),
{
    proof {
        reveal_strlit("ingress");
        reveal_strlit("egress");
    }
    if str_eq(mode, "ingress") {
        kem_peer_addr.unicode_len() > 0
    } else if str_eq(mode, "egress") {
        kem_listen_addr.unicode_len() > 0
    } else {
        false
    }
}

/// Seconds between re-keying exchanges: the configured interval, or, for
/// none, so long that there is no automatic re-keying.
pub fn rekey_interval(configured_secs: u64) -> (r: u64)
    ensures
        r == if configured_secs > 0 {
            configured_secs
        } else {
            0x7FFF_FFFF_FFFF_FFFF
        },
{
    if configured_secs > 0 {
        configured_secs
    } else {
        u64::MAX / 2
    }
}

/// The envelope magic and header are present.
pub open spec fn envelope_header_present(buf: Seq<u8>) -> bool {
    buf.len() >= ENVELOPE_HEADER_SIZE && buf[0] == ENVELOPE_MAGIC_0 && buf[1] == ENVELOPE_MAGIC_1
}

/// The device id an envelope announces, if its header is present.
pub fn peek_device_id(buf: &[u8]) -> (r: Option<u64>)
    ensures
        match r {
            Some(id) => envelope_header_present(buf@) && id == be_value(buf@.subrange(3, 11)),
            None => !envelope_header_present(buf@),
        },
{
    if buf.len() < ENVELOPE_HEADER_SIZE {
        return None;
    }
    if buf[0] != ENVELOPE_MAGIC_0 || buf[1] != ENVELOPE_MAGIC_1 {
        return None;
    }
    Some(be_read(&buf[3..11]))
}

/// The sequence number an envelope announces, if it is long enough.
pub fn peek_seq(buf: &[u8]) -> (r: Option<u64>)
    ensures
        match r {
            Some(s) => buf@.len() >= ENVELOPE_HEADER_SIZE && s == be_value(buf@.subrange(11, 19)),
            None => buf@.len() < ENVELOPE_HEADER_SIZE,
        },
{
    if buf.len() < ENVELOPE_HEADER_SIZE {
        return None;
    }
    Some(be_read(&buf[11..19]))
}

/// A Modbus TCP frame around an unwrapped PDU: transaction id 0, unit id
/// the PDU's first byte (0 for an empty PDU).
pub fn reassemble_modbus(pdu: &[u8]) -> (out: Vec<u8>)
    ensures
        out@ == be16_bytes(0) + be16_bytes(0) + be16_bytes((pdu@.len() % 0x1_0000) as u16) + pdu@,
{
    let unit_id = if pdu.len() == 0 {
        0
    } else {
        pdu[0]
    };
    let hdr = MbapHeader { transaction_id: 0, length: (pdu.len() % 0x1_0000) as u16, unit_id };
    reconstruct(&hdr, pdu)
}

/// `s` with every `_` replaced by a space.
pub open spec fn underscores_to_spaces(s: Seq<char>) -> Seq<char> {
    Seq::new(s.len(), |i: int| if s[i] == '_' { ' ' } else { s[i] })
}

/// The CEF syslog line of a security event.
pub open spec fn cef_spec(event_id: Seq<char>, severity: u8, timestamp: u64, extension: Seq<char>) -> Seq<
    char,
> {
    "CEF:0|EPINeon|LegacyShieldGateway|1.0|"@ + event_id + "|"@ + underscores_to_spaces(event_id)
        + "|"@ + dec(severity as nat) + "|rt="@ + dec(timestamp as nat) + " "@ + extension + "\n"@
}

/// The CEF syslog line of a security event at `timestamp` (seconds since
/// the epoch).
pub fn cef_message(event_id: &str, severity: u8, timestamp: u64, extension: &str) -> (s: String)
    ensures
        s@ == cef_spec(event_id@, severity, timestamp, extension@),
{
    let mut s = String::from_str("CEF:0|EPINeon|LegacyShieldGateway|1.0|");
    push_str(&mut s, event_id);
    push_str(&mut s, "|");
    let ghost before = s@;
    let n = event_id.unicode_len();
    let mut i: usize = 0;
    while i < n
        invariant
            i <= n == event_id@.len(),
            s@ == before + underscores_to_spaces(event_id@).subrange(0, i as int),
        decreases n - i,
    {
        let c = event_id.get_char(i);
        if c == '_' {
            crate::primitives::push_char(&mut s, ' ');
        } else {
            crate::primitives::push_char(&mut s, c);
        }
        proof {
            assert(underscores_to_spaces(event_id@).subrange(0, i + 1) =~= underscores_to_spaces(
                event_id@,
            ).subrange(0, i as int).push(if c == '_' { ' ' } else { c }));
        }
        i = i + 1;
    }
    proof {
        assert(underscores_to_spaces(event_id@).subrange(0, n as int) =~= underscores_to_spaces(
            event_id@,
        ));
    }
    push_str(&mut s, "|");
    push_dec(&mut s, severity as u64);
    push_str(&mut s, "|rt=");
    push_dec(&mut s, timestamp);
    push_str(&mut s, " ");
    push_str(&mut s, extension);
    push_str(&mut s, "\n");
    s
}


// ---------------------------------------------------------------------------
// ingress: OT frame in, envelope out
// ---------------------------------------------------------------------------

/// The device id and PDU of an OT frame of `protocol`: the Modbus unit id
/// and the PDU after the MBAP transaction, protocol and length fields, or
/// the DNP3 source address and the bytes after the link header.
pub open spec fn ot_frame_parse(protocol: ProtocolId, f: Seq<u8>) -> Option<(u64, Seq<u8>)> {
    match protocol {
        ProtocolId::ModbusTcp => if f.len() >= 7 && be16(f[2], f[3]) == 0 && f.len() - 6 >= be16(
            f[4],
            f[5],
        ) {
            Some((f[6] as u64, f.subrange(6, 6 + be16(f[4], f[5]))))
        } else {
            None
        },
        ProtocolId::Dnp3 => if header_accepted(f) && f.len() >= f[2] + 5 {
            Some((le16(f[6], f[7]) as u64, f.subrange(10, f[2] + 5)))
        } else {
            None
        },
    }
}

/// The Modbus frame error of a frame that does not parse.
pub open spec fn modbus_frame_error(f: Seq<u8>) -> ModbusError {
    if f.len() < 7 {
        ModbusError::TooShort { have: f.len() as usize, need: 7 }
    } else if be16(f[2], f[3]) != 0 {
        ModbusError::BadProtocolId(be16(f[2], f[3]))
    } else {
        ModbusError::LengthMismatch {
            declared: be16(f[4], f[5]) as usize,
            available: (f.len() - 6) as usize,
        }
    }
}

/// The message of the DNP3 frame error of a frame that does not parse.
pub open spec fn dnp3_frame_error_message(f: Seq<u8>) -> Seq<char> {
    if f.len() < 10 {
        DnpError::TooShort { have: f.len() as usize, need: 10 }.message()
    } else if !(f[0] == crate::protocols::dnp3::DNP3_START_0 && f[1]
        == crate::protocols::dnp3::DNP3_START_1) {
        DnpError::BadStartBytes([f[0], f[1]]).message()
    } else if crc16_spec(f.subrange(2, 8)) != le16(f[8], f[9]) {
        DnpError::HeaderCrcMismatch {
            expected: crc16_spec(f.subrange(2, 8)),
            got: le16(f[8], f[9]),
        }.message()
    } else {
        DnpError::InsufficientPayload {
            declared: (f[2] + 5) as usize,
            available: f.len() as usize,
        }.message()
    }
}

/// The log message of a frame of `protocol` that does not parse.
pub open spec fn frame_error_message(protocol: ProtocolId, f: Seq<u8>) -> Seq<char> {
    match protocol {
        ProtocolId::ModbusTcp => modbus_frame_error(f).message(),
        ProtocolId::Dnp3 => dnp3_frame_error_message(f),
    }
}

/// The device id of an OT frame of `protocol`, if it parses (the key the
/// caller loads for `ingress_step` is this device's).
pub fn frame_device_id(protocol: ProtocolId, frame: &[u8]) -> (r: Option<u64>)
    requires
        protocol == ProtocolId::Dnp3 ==> (header_accepted(frame@) ==> frame@[2] >= 5),
    ensures
        r == match ot_frame_parse(protocol, frame@) {
            Some((d, _)) => Some(d),
            None => None::<u64>,
        },
{
    match protocol {
        ProtocolId::ModbusTcp => match extract_pdu(frame) {
            Ok((h, _)) => Some(h.unit_id as u64),
            Err(_) => None,
        },
        ProtocolId::Dnp3 => match extract_payload(frame) {
            Ok((h, _)) => Some(h.source as u64),
            Err(_) => None,
        },
    }
}

/// What the ingress side does with one OT frame.
#[derive(Debug)]
pub enum IngressAction {
    /// The frame does not parse; report `PARSE_ERR` and drop it.
    ParseError(String),
    /// No key for the device; report `KEY_MISSING` and drop the frame. The
    /// sequence number was used up all the same.
    KeyMissing { device_id: u64, seq: u64 },
    /// Forward this envelope.
    Send { device_id: u64, seq: u64, envelope: Vec<u8> },
    /// Sealing failed; drop the frame.
    WrapFailed { device_id: u64, seq: u64, error: FrameError },
}

/// The ingress decision for one frame of `protocol`: parse it, take the
/// device's next sequence number, and seal the PDU under `key` (the key the
/// caller found for the parsed device, if any) for that device and number.
pub fn ingress_step(
    protocol: ProtocolId,
    frame: &[u8],
    key: Option<&[u64]>,
    counters: &mut SequenceCounter,
) -> (a: IngressAction)
    requires
        protocol == ProtocolId::Dnp3 ==> (header_accepted(frame@) ==> frame@[2] >= 5),
        ot_frame_parse(protocol, frame@) matches Some((d, _)) ==> old(counters).sent(protocol, d)
            < u64::MAX,
    ensures
        match ot_frame_parse(protocol, frame@) {
            None => {
                &&& a matches IngressAction::ParseError(m) && m@ == frame_error_message(
                    protocol,
                    frame@,
                )
                &&& *final(counters) == *old(counters)
            },
            Some((d, pdu)) => {
                let s = (old(counters).sent(protocol, d) + 1) as u64;
                &&& final(counters).sent(protocol, d) == s
                &&& forall|q: ProtocolId, e: u64|
                    (q, e) != (protocol, d) ==> #[trigger] final(counters).sent(q, e) == old(
                        counters,
                    ).sent(q, e)
                &&& forall|q: ProtocolId, e: u64| #[trigger]
                    final(counters).last_seen(q, e) == old(counters).last_seen(q, e)
                &&& match key {
                    None => a matches IngressAction::KeyMissing { device_id, seq } && device_id == d
                        && seq == s,
                    Some(k) => match a {
                        IngressAction::Send { device_id, seq, envelope } => device_id == d && seq
                            == s && wrap_outcome(
                            pdu,
                            OtAad { protocol, device_id: d, seq: s },
                            k@,
                            Ok(envelope),
                        ),
                        IngressAction::WrapFailed { device_id, seq, error } => device_id == d && seq
                            == s && wrap_outcome(
                            pdu,
                            OtAad { protocol, device_id: d, seq: s },
                            k@,
                            Err(error),
                        ),
                        _ => false,
                    },
                }
            },
        },
{
    let (device_id, pdu) = match protocol {
        ProtocolId::ModbusTcp => match extract_pdu(frame) {
            Ok((h, pdu)) => (h.unit_id as u64, pdu),
            Err(e) => {
                assert(e == modbus_frame_error(frame@));
                return IngressAction::ParseError(e.to_string());
            },
        },
        ProtocolId::Dnp3 => match extract_payload(frame) {
            Ok((h, payload)) => (h.source as u64, payload),
            Err(e) => {
                assert(e.message() == dnp3_frame_error_message(frame@));
                return IngressAction::ParseError(e.to_string());
            },
        },
    };
    assert(ot_frame_parse(protocol, frame@) == Some((device_id, pdu@)));
    let seq = counters.next_seq(protocol, device_id);
    match key {
        None => IngressAction::KeyMissing { device_id, seq },
        Some(k) => {
            let aad = OtAad { protocol, device_id, seq };
            match wrap_pdu(pdu.as_slice(), aad, k) {
                Ok(envelope) => IngressAction::Send { device_id, seq, envelope },
                Err(error) => IngressAction::WrapFailed { device_id, seq, error },
            }
        },
    }
}

// ---------------------------------------------------------------------------
// egress: envelope in, OT frame out
// ---------------------------------------------------------------------------

/// The device id an envelope announces, if its header is present.
pub open spec fn peeked_device(buf: Seq<u8>) -> Option<u64> {
    if envelope_header_present(buf) {
        Some(be_value(buf.subrange(3, 11)) as u64)
    } else {
        None
    }
}

/// The sequence number an envelope announces, or 0 if it is too short.
pub open spec fn peeked_seq(buf: Seq<u8>) -> u64 {
    if buf.len() >= ENVELOPE_HEADER_SIZE {
        be_value(buf.subrange(11, 19)) as u64
    } else {
        0
    }
}

/// The frame forwarded for an opened PDU: a Modbus TCP frame around it, or
/// the DNP3 PDU itself.
pub open spec fn forwarded_frame(protocol: ProtocolId, pdu: Seq<u8>) -> Seq<u8> {
    match protocol {
        ProtocolId::ModbusTcp => be16_bytes(0) + be16_bytes(0) + be16_bytes(
            (pdu.len() % 0x1_0000) as u16,
        ) + pdu,
        ProtocolId::Dnp3 => pdu,
    }
}

/// What the egress side does with one envelope.
#[derive(Debug)]
pub enum EgressAction {
    /// No envelope header; report `PARSE_ERR` and drop it.
    ParseError,
    /// No key for the announced device; report `KEY_MISSING` and drop it.
    KeyMissing { device_id: u64 },
    /// The envelope was refused (malformed, replayed or not authentic);
    /// report `AUTH_FAIL` with the announced device and sequence number and
    /// drop it.
    AuthFail { device_id: u64, seq: u64 },
    /// Forward this frame.
    Forward(Vec<u8>),
}

/// The egress decision for one envelope received on a `protocol` listener:
/// read the announced device, open the envelope under `key` (the key the
/// caller found for that device, if any), and forward only what opened.
pub fn egress_step(
    protocol: ProtocolId,
    envelope: &[u8],
    key: Option<&[u64]>,
    counters: &mut SequenceCounter,
) -> (a: EgressAction)
    ensures
        match peeked_device(envelope@) {
            None => {
                &&& a is ParseError
                &&& *final(counters) == *old(counters)
            },
            Some(d) => match key {
                None => {
                    &&& a matches EgressAction::KeyMissing { device_id } && device_id == d
                    &&& *final(counters) == *old(counters)
                },
                Some(k) => {
                    &&& unwrap_counters(envelope@, *old(counters), *final(counters))
                    &&& match unwrap_opens(envelope@, k@, *old(counters)) {
                        Some(pdu) => a matches EgressAction::Forward(f) && f@ == forwarded_frame(
                            protocol,
                            pdu,
                        ),
                        None => a matches EgressAction::AuthFail { device_id, seq } && device_id
                            == d && seq == peeked_seq(envelope@),
                    }
                },
            },
        },
        a is Forward ==> (key matches Some(k) && unwrap_opens(envelope@, k@, *old(counters)) is Some),
{
    let device_id = match peek_device_id(envelope) {
        Some(d) => d,
        None => {
            return EgressAction::ParseError;
        },
    };
    let k = match key {
        Some(k) => k,
        None => {
            return EgressAction::KeyMissing { device_id };
        },
    };
    let seq = match peek_seq(envelope) {
        Some(s) => s,
        None => 0,
    };
    match unwrap_pdu(envelope, k, counters) {
        Err(_) => EgressAction::AuthFail { device_id, seq },
        Ok(pdu) => match protocol {
            ProtocolId::ModbusTcp => EgressAction::Forward(reassemble_modbus(pdu.as_slice())),
            ProtocolId::Dnp3 => EgressAction::Forward(pdu),
        },
    }
}

} // verus!
