use napqes::kem_exchange::{
    check_ack, frame_message, frame_payload_len, initiator_reply, responder_session_key,
};
use napqes::key_file::parse_device_id;
use napqes::ot_frame::{
    FileKeyStore, FrameError, KeyStore, ProtocolId, SessionKeyStore, WILDCARD_DEVICE_ID,
};
use napqes::protocols::dnp3::DnpError;
use napqes::protocols::modbus::ModbusError;
use napqes::self_test::SelfTestError;
use napqes::{keygen, FRODO_CIPHERTEXT_SIZE};

#[test]
fn kem_exchange_steps_derive_the_same_key() {
    let (pk, sk) = keygen();
    let framed_pk = frame_message(&pk);
    let mut prefix = [0u8; 4];
    prefix.copy_from_slice(&framed_pk[..4]);
    let n = frame_payload_len(&prefix).unwrap();
    assert_eq!(n, pk.len());
    let (framed_ct, init_key) = initiator_reply(&framed_pk[4..]).unwrap();
    assert_eq!(framed_ct.len(), 4 + FRODO_CIPHERTEXT_SIZE);
    prefix.copy_from_slice(&framed_ct[..4]);
    let m = frame_payload_len(&prefix).unwrap();
    let resp_key = responder_session_key(&framed_ct[4..4 + m], &sk).unwrap();
    assert_eq!(init_key, resp_key);
    assert!(check_ack(0x01).is_ok());
}

#[test]
fn kem_exchange_refusals() {
    assert_eq!(frame_payload_len(&[0, 1, 0, 1]).unwrap_err(), "KEM frame too large: 65537 bytes");
    assert_eq!(frame_payload_len(&[0, 1, 0, 0]).unwrap(), 65536);
    assert_eq!(check_ack(0x7f).unwrap_err(), "KEM: unexpected ACK byte 0x7f");
    assert_eq!(
        initiator_reply(&[1, 2, 3]).unwrap_err(),
        "KEM encapsulate: invalid FrodoKEM-640-AES public key"
    );
    let (_, sk) = keygen();
    assert_eq!(
        responder_session_key(&[0u8; 5], &sk).unwrap_err(),
        "KEM decapsulate: invalid FrodoKEM-640-AES ciphertext"
    );
    assert_eq!(frame_message(b"ab"), vec![0, 0, 0, 2, b'a', b'b']);
}

#[test]
fn device_ids_parse_as_u64_from_str() {
    assert_eq!(parse_device_id("0"), Some(0));
    assert_eq!(parse_device_id("+42"), Some(42));
    assert_eq!(parse_device_id("0042"), Some(42));
    assert_eq!(parse_device_id("18446744073709551615"), Some(u64::MAX));
    assert_eq!(parse_device_id("18446744073709551616"), None);
    assert_eq!(parse_device_id(""), None);
    assert_eq!(parse_device_id("+"), None);
    assert_eq!(parse_device_id("-1"), None);
    assert_eq!(parse_device_id(" 1"), None);
    assert_eq!(parse_device_id("12a"), None);
    for s in ["7", "+7", "99999999999", "abc", "", "1 ", "٣"] {
        assert_eq!(parse_device_id(s), s.parse::<u64>().ok(), "input {:?}", s);
    }
}

#[test]
fn file_key_store_from_json() {
    let store = FileKeyStore::from_json("keys.json", r#"{"1": [1000003, 1000033], "+7": [1000037]}"#)
        .unwrap();
    assert_eq!(store.load(1).unwrap(), vec![1000003, 1000033]);
    assert_eq!(store.load(7).unwrap(), vec![1000037]);
    assert_eq!(store.load(2).unwrap_err(), "no key for device_id 2");

    let err = FileKeyStore::from_json("keys.json", r#"{"dev": [1]}"#).unwrap_err();
    assert_eq!(err, "key store: device id 'dev' is not a u64");
    let err = FileKeyStore::from_json("keys.json", "not json").unwrap_err();
    assert!(err.starts_with("key store JSON parse 'keys.json': "), "got: {}", err);
}

#[test]
fn error_messages() {
    let e = FrameError::AuthenticationFailed { device_id: 255, protocol: ProtocolId::Dnp3, seq: 3 };
    assert_eq!(e.to_string(), "AUTH_FAIL device_id=0xff proto=DNP3 seq=3");
    let e = FrameError::ReplayDetected {
        device_id: 16,
        protocol: ProtocolId::ModbusTcp,
        seq: 4,
        last_seen: 9,
    };
    assert_eq!(e.to_string(), "REPLAY device_id=0x10 proto=MODBUS seq=4 last_seen=9");
    assert_eq!(FrameError::MalformedEnvelope("x".to_string()).to_string(), "MALFORMED_ENVELOPE x");
    assert_eq!(FrameError::CryptoError("y".to_string()).to_string(), "CRYPTO_ERROR y");

    assert_eq!(
        DnpError::TooShort { have: 3, need: 10 }.to_string(),
        "DNP3 frame too short: have 3 need 10"
    );
    assert_eq!(DnpError::BadStartBytes([0x05, 0x6a]).to_string(), "DNP3 bad start bytes: 056a");
    assert_eq!(
        DnpError::HeaderCrcMismatch { expected: 0x1234, got: 0x00ab }.to_string(),
        "DNP3 header CRC mismatch: expected 0x1234 got 0x00ab"
    );
    assert_eq!(
        DnpError::InsufficientPayload { declared: 8, available: 2 }.to_string(),
        "DNP3 payload mismatch: declared 8 available 2"
    );
    assert_eq!(
        ModbusError::TooShort { have: 1, need: 8 }.to_string(),
        "Modbus frame too short: have 1 need 8"
    );
    assert_eq!(
        ModbusError::BadProtocolId(0x0102).to_string(),
        "Modbus protocol_id must be 0x0000, got 0x0102"
    );
    assert_eq!(
        ModbusError::LengthMismatch { declared: 6, available: 4 }.to_string(),
        "Modbus length mismatch: declared 6 available 4"
    );
    assert_eq!(SelfTestError::KatEncryptMismatch.to_string(), "KAT-1 FAIL: encrypt output mismatch");
    assert_eq!(
        SelfTestError::InternalError("bad").to_string(),
        "SELF-TEST INTERNAL ERROR: bad"
    );
}

#[test]
fn session_key_store_wildcard() {
    let mut store = SessionKeyStore::new();
    assert!(!store.is_ready());

    store.insert(WILDCARD_DEVICE_ID, vec![1_000_003, 1_000_033]);
    assert!(store.is_ready());

    let k1 = store.load(1).unwrap();
    let k2 = store.load(42).unwrap();
    assert_eq!(k1, k2);
    assert_eq!(k1[0], 1_000_003);
}

#[test]
fn session_key_store_per_device_overrides_wildcard() {
    let mut store = SessionKeyStore::new();
    store.insert(WILDCARD_DEVICE_ID, vec![1_000_003]);
    store.insert(7, vec![1_000_033]);

    assert_eq!(store.load(7).unwrap()[0], 1_000_033);
    assert_eq!(store.load(1).unwrap()[0], 1_000_003);
}
