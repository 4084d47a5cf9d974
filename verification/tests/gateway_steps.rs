use napqes::gateway::{egress_step, frame_device_id, ingress_step, EgressAction, IngressAction};
use napqes::ot_frame::{ProtocolId, SequenceCounter};

fn gateway_key() -> Vec<u64> {
    vec![
        1_000_003, 1_000_033, 1_000_037, 1_000_039, 1_000_081, 1_000_099, 1_000_117, 1_000_121,
        1_000_133, 1_000_151,
    ]
}

/// MBAP header (transaction 7, protocol 0, length 6) and the PDU
/// `unit 0x11, read holding registers 0..10`.
fn modbus_frame() -> Vec<u8> {
    vec![0x00, 0x07, 0x00, 0x00, 0x00, 0x06, 0x11, 0x03, 0x00, 0x00, 0x00, 0x0a]
}

#[test]
fn ingress_then_egress_forwards_the_reassembled_frame() {
    let key = gateway_key();
    let frame = modbus_frame();
    assert_eq!(frame_device_id(ProtocolId::ModbusTcp, &frame), Some(0x11));
    let mut sender = SequenceCounter::new();
    let envelope = match ingress_step(ProtocolId::ModbusTcp, &frame, Some(&key), &mut sender) {
        IngressAction::Send { device_id, seq, envelope } => {
            assert_eq!((device_id, seq), (0x11, 1));
            envelope
        }
        other => panic!("unexpected {:?}", other),
    };
    assert_eq!(sender.last_sent(ProtocolId::ModbusTcp, 0x11), 1);

    let mut receiver = SequenceCounter::new();
    match egress_step(ProtocolId::ModbusTcp, &envelope, Some(&key), &mut receiver) {
        EgressAction::Forward(out) => {
            let mut expected = vec![0x00, 0x00, 0x00, 0x00, 0x00, 0x06];
            expected.extend_from_slice(&frame[6..]);
            assert_eq!(out, expected);
        }
        other => panic!("unexpected {:?}", other),
    }
    // The same envelope again is a replay: refused and reported.
    match egress_step(ProtocolId::ModbusTcp, &envelope, Some(&key), &mut receiver) {
        EgressAction::AuthFail { device_id, seq } => assert_eq!((device_id, seq), (0x11, 1)),
        other => panic!("unexpected {:?}", other),
    }
}

#[test]
fn egress_refuses_tampered_and_keyless_envelopes() {
    let key = gateway_key();
    let mut sender = SequenceCounter::new();
    let mut envelope = match ingress_step(ProtocolId::ModbusTcp, &modbus_frame(), Some(&key), &mut sender) {
        IngressAction::Send { envelope, .. } => envelope,
        other => panic!("unexpected {:?}", other),
    };
    let mut receiver = SequenceCounter::new();
    match egress_step(ProtocolId::ModbusTcp, &envelope, None, &mut receiver) {
        EgressAction::KeyMissing { device_id } => assert_eq!(device_id, 0x11),
        other => panic!("unexpected {:?}", other),
    }
    let last = envelope.len() - 1;
    envelope[last] ^= 0xFF;
    match egress_step(ProtocolId::ModbusTcp, &envelope, Some(&key), &mut receiver) {
        EgressAction::AuthFail { device_id, seq } => assert_eq!((device_id, seq), (0x11, 1)),
        other => panic!("unexpected {:?}", other),
    }
    match egress_step(ProtocolId::Dnp3, &[0x4E, 0x51, 0x01], Some(&key), &mut receiver) {
        EgressAction::ParseError => {}
        other => panic!("unexpected {:?}", other),
    }
}

#[test]
fn ingress_reports_parse_errors_and_missing_keys() {
    let mut counters = SequenceCounter::new();
    match ingress_step(ProtocolId::ModbusTcp, &[0x00, 0x01, 0x00], None, &mut counters) {
        IngressAction::ParseError(m) => assert_eq!(m, "Modbus frame too short: have 3 need 7"),
        other => panic!("unexpected {:?}", other),
    }
    assert_eq!(counters.last_sent(ProtocolId::ModbusTcp, 0x11), 0);
    match ingress_step(ProtocolId::ModbusTcp, &modbus_frame(), None, &mut counters) {
        IngressAction::KeyMissing { device_id, seq } => assert_eq!((device_id, seq), (0x11, 1)),
        other => panic!("unexpected {:?}", other),
    }
    assert_eq!(counters.last_sent(ProtocolId::ModbusTcp, 0x11), 1);
}
