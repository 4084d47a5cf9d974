//! Modbus TCP: the 7-byte MBAP header (transaction id, protocol id `0`,
//! length, unit id) and the PDU `unit_id || function_code || data`.
use crate::text::{dec, hex2, push_dec, push_hex2, push_str};
use vstd::prelude::*;

verus! {

pub const MBAP_HEADER_SIZE: usize = 7;

pub const MODBUS_PROTOCOL_ID: u16 = 0x0000;

#[derive(Debug, Clone)]
pub struct MbapHeader {
    pub transaction_id: u16,
    pub length: u16,
    pub unit_id: u8,
}

#[derive(Debug)]
pub enum ModbusError {
    TooShort { have: usize, need: usize },
    BadProtocolId(u16),
    LengthMismatch { declared: usize, available: usize },
}

impl ModbusError {
    /// The message of the error.
    pub open spec fn message(self) -> Seq<char> {
        match self {
            ModbusError::TooShort { have, need } => "Modbus frame too short: have "@ + dec(
                have as nat,
            ) + " need "@ + dec(need as nat),
            ModbusError::BadProtocolId(pid) => "Modbus protocol_id must be 0x0000, got 0x"@ + hex2(
                (pid / 256) as nat,
            ) + hex2((pid % 256) as nat),
            ModbusError::LengthMismatch { declared, available } =>
                "Modbus length mismatch: declared "@ + dec(declared as nat) + " available "@ + dec(
                available as nat,
            ),
        }
    }

    /// The message of the error.
    pub fn to_string(&self) -> (s: String)
        ensures
            s@ == self.message(),
    {
        match self {
            ModbusError::TooShort { have, need } => {
                let mut s = String::from_str("Modbus frame too short: have ");
                push_dec(&mut s, *have as u64);
                push_str(&mut s, " need ");
                push_dec(&mut s, *need as u64);
                s
            },
            ModbusError::BadProtocolId(pid) => {
                let mut s = String::from_str("Modbus protocol_id must be 0x0000, got 0x");
                push_hex2(&mut s, (*pid / 256) as u8);
                push_hex2(&mut s, (*pid % 256) as u8);
                s
            },
            ModbusError::LengthMismatch { declared, available } => {
                let mut s = String::from_str("Modbus length mismatch: declared ");
                push_dec(&mut s, *declared as u64);
                push_str(&mut s, " available ");
                push_dec(&mut s, *available as u64);
                s
            },
        }
    }
}

/// Big-endian `u16` of two bytes.
pub open spec fn be16(hi: u8, lo: u8) -> u16 {
    ((hi as nat) * 256 + (lo as nat)) as u16
}

/// Big-endian bytes of a `u16`.
pub open spec fn be16_bytes(x: u16) -> Seq<u8> {
    seq![(x / 256) as u8, (x % 256) as u8]
}

/// Splits a Modbus TCP frame into its MBAP header and the PDU (from the
/// unit id on, `length` bytes).
pub fn extract_pdu(buf: &[u8]) -> (r: Result<(MbapHeader, Vec<u8>), ModbusError>)
    ensures
        buf@.len() < 7 <==> r matches Err(ModbusError::TooShort { .. }),
        r matches Err(ModbusError::TooShort { have, need }) ==> have == buf@.len() && need == 7,
        buf@.len() >= 7 && be16(buf@[2], buf@[3]) != 0 <==> r matches Err(
            ModbusError::BadProtocolId(_),
        ),
        r matches Err(ModbusError::BadProtocolId(pid)) ==> pid == be16(buf@[2], buf@[3]),
        buf@.len() >= 7 && be16(buf@[2], buf@[3]) == 0 && buf@.len() - 6 < be16(buf@[4], buf@[5])
            <==> r matches Err(ModbusError::LengthMismatch { .. }),
        r matches Err(ModbusError::LengthMismatch { declared, available }) ==> declared == be16(
            buf@[4],
            buf@[5],
        ) && available == buf@.len() - 6,
        r matches Ok((h, pdu)) ==> {
            &&& h.transaction_id == be16(buf@[0], buf@[1])
            &&& h.length == be16(buf@[4], buf@[5])
            &&& h.unit_id == buf@[6]
            &&& pdu@ == buf@.subrange(6, 6 + h.length as int)
        },
{
    if buf.len() < MBAP_HEADER_SIZE {
        return Err(ModbusError::TooShort { have: buf.len(), need: MBAP_HEADER_SIZE });
    }
    let transaction_id = (buf[0] as u16) * 256 + buf[1] as u16;
    let protocol_id = (buf[2] as u16) * 256 + buf[3] as u16;
    let length = (buf[4] as u16) * 256 + buf[5] as u16;
    let unit_id = buf[6];
    if protocol_id != MODBUS_PROTOCOL_ID {
        return Err(ModbusError::BadProtocolId(protocol_id));
    }
    let declared_remaining = length as usize;
    let available_remaining = buf.len() - 6;
    if available_remaining < declared_remaining {
        return Err(
            ModbusError::LengthMismatch {
                declared: declared_remaining,
                available: available_remaining,
            },
        );
    }
    let header = MbapHeader { transaction_id, length, unit_id };
    let pdu = crate::bytes::bytes_to_vec(&buf[6..6 + declared_remaining]);
    Ok((header, pdu))
}

/// Rebuilds a Modbus TCP frame: transaction id, protocol id `0`, the PDU
/// length (low 16 bits), then the PDU.
pub fn reconstruct(header: &MbapHeader, pdu: &[u8]) -> (out: Vec<u8>)
    ensures
        out@ == be16_bytes(header.transaction_id) + be16_bytes(0) + be16_bytes(
            (pdu@.len() % 0x1_0000) as u16,
        ) + pdu@,
{
    let length = (pdu.len() % 0x1_0000) as u16;
    let mut out: Vec<u8> = Vec::new();
    out.push((header.transaction_id / 256) as u8);
    out.push((header.transaction_id % 256) as u8);
    out.push(0);
    out.push(0);
    out.push((length / 256) as u8);
    out.push((length % 256) as u8);
    crate::bytes::append_bytes(&mut out, pdu);
    assert(out@ =~= be16_bytes(header.transaction_id) + be16_bytes(0) + be16_bytes(length) + pdu@);
    out
}

/// Rebuilding the frame from what was extracted gives back the frame, up to
/// its declared end.
pub proof fn lemma_reconstruct_extract(buf: Seq<u8>, h: MbapHeader, pdu: Seq<u8>)
    requires
        buf.len() >= 7,
        be16(buf[2], buf[3]) == 0,
        h.transaction_id == be16(buf[0], buf[1]),
        h.length == be16(buf[4], buf[5]),
        buf.len() - 6 >= h.length,
        pdu == buf.subrange(6, 6 + h.length as int),
    ensures
        be16_bytes(h.transaction_id) + be16_bytes(0) + be16_bytes(
            (pdu.len() % 0x1_0000) as u16,
        ) + pdu == buf.subrange(0, 6 + h.length as int),
{
    let t = be16_bytes(h.transaction_id) + be16_bytes(0) + be16_bytes(
        (pdu.len() % 0x1_0000) as u16,
    ) + pdu;
    assert(pdu.len() == h.length);
    assert(buf[2] == 0 && buf[3] == 0);
    assert(t =~= buf.subrange(0, 6 + h.length as int));
}

} // verus!
