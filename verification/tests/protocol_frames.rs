use napqes::protocols::dnp3::{self, crc16_dnp, extract_payload, DnpError, DNP3_START_BYTES};
use napqes::protocols::modbus::{self, extract_pdu, ModbusError};

fn build_frame(src: u16, dst: u16, payload: &[u8]) -> Vec<u8> {
    let dest_bytes = dst.to_le_bytes();
    let src_bytes = src.to_le_bytes();
    let length = (5 + payload.len() + 2) as u8;
    let mut header_body = [0u8; 6];
    header_body[0] = length;
    header_body[1] = 0xC4;
    header_body[2] = dest_bytes[0];
    header_body[3] = dest_bytes[1];
    header_body[4] = src_bytes[0];
    header_body[5] = src_bytes[1];
    let crc_hdr = crc16_dnp(&header_body);
    let block_crc = crc16_dnp(payload);
    let mut frame = Vec::new();
    frame.extend_from_slice(&DNP3_START_BYTES);
    frame.extend_from_slice(&header_body);
    frame.extend_from_slice(&crc_hdr.to_le_bytes());
    frame.extend_from_slice(payload);
    frame.extend_from_slice(&block_crc.to_le_bytes());
    frame
}

#[test]
fn dnp3_extract_and_reconstruct_roundtrip() {
    let payload_data = b"\xC0\x81\x00\x00";
    let frame = build_frame(0x0003, 0x0001, payload_data);
    let (hdr, payload) = extract_payload(&frame).unwrap();
    assert_eq!(hdr.source, 0x0003);
    assert_eq!(hdr.destination, 0x0001);
    let reassembled = dnp3::reconstruct(&hdr, &payload);
    assert_eq!(reassembled, frame);
}

#[test]
fn bad_start_bytes_rejected() {
    let mut bad = build_frame(1, 2, b"\x00\x00");
    bad[0] = 0xFF;
    assert!(matches!(extract_payload(&bad), Err(DnpError::BadStartBytes(_))));
}

#[test]
fn header_crc_mismatch_rejected() {
    let mut bad = build_frame(1, 2, b"\x00\x00");
    bad[4] ^= 0x01;
    assert!(matches!(extract_payload(&bad), Err(DnpError::HeaderCrcMismatch { .. })));
}

#[test]
fn crc16_dnp_known_value() {
    let bytes = &[0x08, 0xC4, 0x01, 0x00, 0x03, 0x00];
    let crc = crc16_dnp(bytes);
    let frame = build_frame(0x0003, 0x0001, b"\x00\x00\x00\x00");
    let (hdr, _) = extract_payload(&frame).unwrap();
    let recomputed = crc16_dnp(&{
        let mut h = [0u8; 6];
        h[0] = hdr.length;
        h[1] = hdr.control;
        let d = hdr.destination.to_le_bytes();
        let s = hdr.source.to_le_bytes();
        h[2] = d[0];
        h[3] = d[1];
        h[4] = s[0];
        h[5] = s[1];
        h
    });
    assert_eq!(recomputed, hdr.crc_header);
    let _ = crc;
}

#[test]
fn crc16_dnp_check_value() {
    // CRC-16/DNP of the ASCII digits "123456789" is 0xEA82.
    assert_eq!(crc16_dnp(b"123456789"), 0xEA82);
    assert_eq!(crc16_dnp(b""), 0xFFFF);
}

#[test]
fn dnp3_short_and_truncated_frames() {
    assert!(matches!(
        extract_payload(&[0x05, 0x64, 0x05]),
        Err(DnpError::TooShort { have: 3, need: 10 })
    ));
    let frame = build_frame(1, 2, b"\x01\x02\x03");
    let cut = &frame[..frame.len() - 1];
    assert!(matches!(
        extract_payload(cut),
        Err(DnpError::InsufficientPayload { .. })
    ));
}

const SAMPLE: &[u8] = &[
    0x00, 0x01, 0x00, 0x00, 0x00, 0x06, 0x01, 0x03, 0x00, 0x00, 0x00, 0x0a,
];

#[test]
fn modbus_extract_and_reconstruct_roundtrip() {
    let (hdr, pdu) = extract_pdu(SAMPLE).unwrap();
    assert_eq!(hdr.unit_id, 1);
    assert_eq!(hdr.transaction_id, 1);
    assert_eq!(pdu[0], 0x01);
    assert_eq!(pdu[1], 0x03);
    let reassembled = modbus::reconstruct(&hdr, &pdu);
    assert_eq!(reassembled, SAMPLE);
}

#[test]
fn bad_protocol_id_rejected() {
    let mut bad = SAMPLE.to_vec();
    bad[2] = 0x00;
    bad[3] = 0x01;
    assert!(matches!(extract_pdu(&bad), Err(ModbusError::BadProtocolId(1))));
}

#[test]
fn truncated_frame_rejected() {
    assert!(matches!(extract_pdu(&SAMPLE[..4]), Err(ModbusError::TooShort { .. })));
}

#[test]
fn modbus_length_mismatch_reported() {
    let mut bad = SAMPLE.to_vec();
    bad[5] = 0x09;
    assert!(matches!(
        extract_pdu(&bad),
        Err(ModbusError::LengthMismatch { declared: 9, available: 6 })
    ));
}
