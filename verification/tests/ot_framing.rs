use napqes::ot_frame::{
    parse_envelope_header, unwrap_pdu, wrap_pdu, FileKeyStore, FrameError, KeyStore, OtAad,
    ProtocolId, SequenceCounter, SessionKeyStore, ENVELOPE_HEADER_SIZE, WILDCARD_DEVICE_ID,
};

fn test_key() -> Vec<u64> {
    vec![
        1_000_003, 1_000_033, 1_000_037, 1_000_039, 1_000_081, 1_000_099, 1_000_117, 1_000_121,
        1_000_133, 1_000_151,
    ]
}

fn make_aad(protocol: ProtocolId, device_id: u64, seq: u64) -> OtAad {
    OtAad { protocol, device_id, seq }
}

#[test]
fn wrap_unwrap_modbus_roundtrip() {
    let key = test_key();
    let mut counters = SequenceCounter::new();
    let pdu = b"\x01\x03\x00\x00\x00\x0a";
    let aad = make_aad(ProtocolId::ModbusTcp, 1, 1);
    let envelope = wrap_pdu(pdu, aad, &key).unwrap();
    let recovered = unwrap_pdu(&envelope, &key, &mut counters).unwrap();
    assert_eq!(recovered, pdu.as_ref());
}

#[test]
fn wrap_unwrap_dnp3_roundtrip() {
    let key = test_key();
    let mut counters = SequenceCounter::new();
    let pdu = b"\x05\x64\x05\xc4\x01\x00\x03\x00\xf9\x53";
    let aad = make_aad(ProtocolId::Dnp3, 3, 1);
    let envelope = wrap_pdu(pdu, aad, &key).unwrap();
    let recovered = unwrap_pdu(&envelope, &key, &mut counters).unwrap();
    assert_eq!(recovered, pdu.as_ref());
}

#[test]
fn replay_rejected() {
    let key = test_key();
    let mut counters = SequenceCounter::new();
    let pdu = b"\x01\x03\x00\x00\x00\x0a";
    let aad1 = make_aad(ProtocolId::ModbusTcp, 1, 1);
    let aad2 = make_aad(ProtocolId::ModbusTcp, 1, 2);
    let env1 = wrap_pdu(pdu, aad1, &key).unwrap();
    let env2 = wrap_pdu(pdu, aad2, &key).unwrap();
    unwrap_pdu(&env2, &key, &mut counters).unwrap();
    let result = unwrap_pdu(&env1, &key, &mut counters);
    match result {
        Err(FrameError::ReplayDetected { device_id, protocol, seq, last_seen }) => {
            assert_eq!((device_id, protocol, seq, last_seen), (1, ProtocolId::ModbusTcp, 1, 2));
        }
        other => panic!("unexpected {:?}", other),
    }
}

#[test]
fn tampered_napqes_blob_rejected() {
    let key = test_key();
    let mut counters = SequenceCounter::new();
    let pdu = b"\x01\x03\x00\x00\x00\x0a";
    let aad = make_aad(ProtocolId::ModbusTcp, 1, 1);
    let mut envelope = wrap_pdu(pdu, aad, &key).unwrap();
    envelope[ENVELOPE_HEADER_SIZE] ^= 0x01;
    let result = unwrap_pdu(&envelope, &key, &mut counters);
    assert!(matches!(result, Err(FrameError::AuthenticationFailed { .. })));
}

#[test]
fn wrong_key_rejected() {
    let key1 = test_key();
    let key2 = vec![
        1_000_159, 1_000_171, 1_000_183, 1_000_187, 1_000_193, 1_000_199, 1_000_211, 1_000_223,
        1_000_231, 1_000_249,
    ];
    let mut counters = SequenceCounter::new();
    let pdu = b"\x01\x03\x00\x00\x00\x0a";
    let aad = make_aad(ProtocolId::ModbusTcp, 1, 1);
    let envelope = wrap_pdu(pdu, aad, &key1).unwrap();
    let result = unwrap_pdu(&envelope, &key2, &mut counters);
    assert!(matches!(result, Err(FrameError::AuthenticationFailed { .. })));
}

#[test]
fn aad_device_id_mismatch_rejected() {
    let key = test_key();
    let mut counters = SequenceCounter::new();
    let pdu = b"\x01\x03\x00\x00\x00\x0a";
    let aad_send = make_aad(ProtocolId::ModbusTcp, 1, 1);
    let mut envelope = wrap_pdu(pdu, aad_send, &key).unwrap();
    let did_bytes = 2u64.to_be_bytes();
    envelope[3..11].copy_from_slice(&did_bytes);
    let result = unwrap_pdu(&envelope, &key, &mut counters);
    assert!(matches!(result, Err(FrameError::AuthenticationFailed { .. })));
}

#[test]
fn aad_bytes_layout() {
    let aad = make_aad(ProtocolId::Dnp3, 0x0102030405060708, 9);
    let b = aad.to_bytes();
    assert_eq!(b[0], 0x02);
    assert_eq!(&b[1..9], &[1, 2, 3, 4, 5, 6, 7, 8]);
    assert_eq!(&b[9..17], &[0, 0, 0, 0, 0, 0, 0, 9]);
}

#[test]
fn envelope_header_errors() {
    match parse_envelope_header(&[0u8; 5]) {
        Err(FrameError::MalformedEnvelope(s)) => assert_eq!(s, "buffer too short: 5 < 23"),
        other => panic!("unexpected {:?}", other),
    }
    let mut buf = vec![0u8; 23];
    buf[0] = 0xAB;
    buf[1] = 0x0C;
    match parse_envelope_header(&buf) {
        Err(FrameError::MalformedEnvelope(s)) => assert_eq!(s, "bad magic: ab0c"),
        other => panic!("unexpected {:?}", other),
    }
    buf[0] = 0x4E;
    buf[1] = 0x51;
    buf[2] = 0x07;
    match parse_envelope_header(&buf) {
        Err(FrameError::MalformedEnvelope(s)) => assert_eq!(s, "unknown protocol_id 0x07"),
        other => panic!("unexpected {:?}", other),
    }
    buf[2] = 0x01;
    buf[22] = 5;
    match parse_envelope_header(&buf) {
        Err(FrameError::MalformedEnvelope(s)) => assert_eq!(s, "truncated blob: have 0 want 5"),
        other => panic!("unexpected {:?}", other),
    }
    buf.extend_from_slice(&[0u8; 5]);
    let (p, d, s, off, len) = parse_envelope_header(&buf).unwrap();
    assert_eq!((p, d, s, off, len), (ProtocolId::ModbusTcp, 0, 0, 23, 5));
}

#[test]
fn sequence_counter_counts_per_device() {
    let mut c = SequenceCounter::new();
    assert_eq!(c.next_seq(ProtocolId::ModbusTcp, 1), 1);
    assert_eq!(c.next_seq(ProtocolId::ModbusTcp, 1), 2);
    assert_eq!(c.next_seq(ProtocolId::Dnp3, 1), 1);
    assert!(c.validate_recv(ProtocolId::Dnp3, 7, 3).is_ok());
    assert!(c.validate_recv(ProtocolId::Dnp3, 7, 3).is_err());
    assert!(c.validate_recv(ProtocolId::ModbusTcp, 7, 1).is_ok());
    match c.validate_recv(ProtocolId::Dnp3, 7, 2) {
        Err(FrameError::ReplayDetected { last_seen, seq, .. }) => {
            assert_eq!((last_seen, seq), (3, 2))
        }
        other => panic!("unexpected {:?}", other),
    }
}

#[test]
fn session_key_store_falls_back_to_wildcard() {
    let mut s = SessionKeyStore::new();
    assert!(!s.is_ready());
    assert_eq!(
        s.load(4).unwrap_err(),
        "no session key for device_id 4 (KEM exchange not yet completed?)"
    );
    s.insert(WILDCARD_DEVICE_ID, vec![1_000_003]);
    assert!(s.is_ready());
    assert_eq!(s.load(4).unwrap(), vec![1_000_003]);
    s.insert(4, vec![1_000_033]);
    assert_eq!(s.load(4).unwrap(), vec![1_000_033]);
    assert_eq!(s.load(5).unwrap(), vec![1_000_003]);
}

#[test]
fn file_key_store_loads_by_device() {
    let mut f = FileKeyStore::new();
    f.insert(1, test_key());
    assert_eq!(f.load(1).unwrap()[0], 1_000_003);
    assert_eq!(f.load(2).unwrap_err(), "no key for device_id 2");
}

#[test]
fn protocol_names() {
    assert_eq!(ProtocolId::ModbusTcp.as_str(), "MODBUS");
    assert_eq!(ProtocolId::Dnp3.as_str(), "DNP3");
    assert_eq!(ProtocolId::from_u8(2), Some(ProtocolId::Dnp3));
    assert_eq!(ProtocolId::from_u8(3), None);
}

#[test]
fn sequence_numbers_count_per_pair_independently() {
    let mut c = SequenceCounter::new();
    let calls = [
        (ProtocolId::ModbusTcp, 7u64),
        (ProtocolId::Dnp3, 7),
        (ProtocolId::ModbusTcp, 7),
        (ProtocolId::ModbusTcp, 8),
        (ProtocolId::ModbusTcp, 7),
        (ProtocolId::Dnp3, 7),
    ];
    let got: Vec<u64> = calls.iter().map(|&(p, d)| c.next_seq(p, d)).collect();
    assert_eq!(got, vec![1, 1, 2, 1, 3, 2]);
    assert_eq!(c.last_sent(ProtocolId::ModbusTcp, 7), 3);
    assert_eq!(c.last_sent(ProtocolId::Dnp3, 7), 2);
    assert_eq!(c.last_sent(ProtocolId::ModbusTcp, 8), 1);
    assert_eq!(c.last_sent(ProtocolId::Dnp3, 8), 0);
}
