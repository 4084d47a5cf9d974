//! DNP3 data-link framing: the 10-byte header (start bytes `05 64`, length,
//! control, destination and source little-endian, CRC-16/DNP of bytes 2..8)
//! and the payload that follows it.
use crate::text::{dec, hex2, push_dec, push_hex2, push_str};
use vstd::prelude::*;

verus! {

pub const DLL_HEADER_SIZE: usize = 10;

/// The two start bytes of every frame.
pub const DNP3_START_BYTES: [u8; 2] = [0x05, 0x64];

/// First start byte.
pub const DNP3_START_0: u8 = 0x05;

/// Second start byte.
pub const DNP3_START_1: u8 = 0x64;

/// Reflected CRC-16/DNP polynomial.
pub const CRC_POLY: u16 = 0xA6BC;

/// Eight shift-and-xor steps of the table construction, from step `j`.
pub open spec fn crc_step(c: u16, j: nat) -> u16
    decreases 8 - j,
{
    if j >= 8 {
        c
    } else if c & 1 != 0 {
        crc_step((c >> 1) ^ CRC_POLY, j + 1)
    } else {
        crc_step(c >> 1, j + 1)
    }
}

/// Entry `i` of the CRC table.
pub open spec fn table_entry(i: nat) -> u16 {
    crc_step(i as u16, 0)
}

/// One table-driven CRC update with byte `b`.
pub open spec fn crc_update(crc: u16, b: u8) -> u16 {
    (crc >> 8) ^ table_entry(((crc ^ (b as u16)) & 0xFF) as nat)
}

/// The CRC register after all of `data`.
pub open spec fn crc_fold(data: Seq<u8>) -> u16
    decreases data.len(),
{
    if data.len() == 0 {
        0
    } else {
        crc_update(crc_fold(data.drop_last()), data.last())
    }
}

/// CRC-16/DNP of `data`: the complemented register.
pub open spec fn crc16_spec(data: Seq<u8>) -> u16 {
    !crc_fold(data)
}

/// One bit of the reflected CRC-16/DNP shift register: shift right, and
/// XOR in the reflected polynomial `0xA6BC` when a one drops out.
pub open spec fn crc_shift_bit(r: u16) -> u16 {
    if r & 1 == 1 {
        (r >> 1) ^ 0xA6BC
    } else {
        r >> 1
    }
}

/// The register after byte `b` enters it bit by bit, least significant
/// bit first.
pub open spec fn crc_shift_byte(r: u16, b: u8) -> u16 {
    crc_shift_bit(
        crc_shift_bit(
            crc_shift_bit(
                crc_shift_bit(
                    crc_shift_bit(crc_shift_bit(crc_shift_bit(crc_shift_bit(r ^ (b as u16))))),
                ),
            ),
        ),
    )
}

/// The bit-serial register after every byte of `data`, from 0.
pub open spec fn crc_register_bitwise(data: Seq<u8>) -> u16
    decreases data.len(),
{
    if data.len() == 0 {
        0
    } else {
        crc_shift_byte(crc_register_bitwise(data.drop_last()), data.last())
    }
}

proof fn lemma_table_entry_bits(c: u16)
    ensures
        crc_step(c, 0) == crc_shift_byte(c, 0),
{
    {
        reveal_with_fuel(crc_step, 9);
        let r = c;
        assert(r ^ (0u8 as u16) == r) by (bit_vector);
        assert(c & 1 != 0 <==> c & 1 == 1) by (bit_vector);
        let c1 = crc_shift_bit(c);
        assert(c1 & 1 != 0 <==> c1 & 1 == 1) by (bit_vector);
        let c2 = crc_shift_bit(c1);
        assert(c2 & 1 != 0 <==> c2 & 1 == 1) by (bit_vector);
        let c3 = crc_shift_bit(c2);
        assert(c3 & 1 != 0 <==> c3 & 1 == 1) by (bit_vector);
        let c4 = crc_shift_bit(c3);
        assert(c4 & 1 != 0 <==> c4 & 1 == 1) by (bit_vector);
        let c5 = crc_shift_bit(c4);
        assert(c5 & 1 != 0 <==> c5 & 1 == 1) by (bit_vector);
        let c6 = crc_shift_bit(c5);
        assert(c6 & 1 != 0 <==> c6 & 1 == 1) by (bit_vector);
        let c7 = crc_shift_bit(c6);
        assert(c7 & 1 != 0 <==> c7 & 1 == 1) by (bit_vector);
        assert(crc_step(c7, 7) == crc_shift_bit(c7));
        assert(crc_step(c6, 6) == crc_shift_bit(c7));
        assert(crc_step(c5, 5) == crc_step(c6, 6));
        assert(crc_step(c4, 4) == crc_step(c5, 5));
        assert(crc_step(c3, 3) == crc_step(c4, 4));
        assert(crc_step(c2, 2) == crc_step(c3, 3));
        assert(crc_step(c1, 1) == crc_step(c2, 2));
        assert(crc_step(c, 0) == crc_step(c1, 1));
    }
}

/// The table-driven update is the bit-serial one: the register's high byte
/// only shifts down, and the table holds the eight steps of the low byte.
proof fn lemma_crc_update_bitwise(r: u16, b: u8)
    ensures
        crc_update(r, b) == crc_shift_byte(r, b),
{
    let i = (r ^ (b as u16)) & 0xFF;
    assert(((r ^ (b as u16)) & 0xFF) < 256) by (bit_vector);
    lemma_table_entry_bits(i);
    assert(((i as nat) as u16) == i);
    assert((r >> 8) ^ crc_shift_byte((r ^ (b as u16)) & 0xFF, 0) == crc_shift_byte(r, b))
        by (bit_vector);
}

/// CRC-16/DNP as specified: the bit-serial reflected CRC with polynomial
/// `0xA6BC` and initial register 0 over every byte of `data`, complemented.
/// The table-driven register agrees with it on every input, zero bytes
/// included, so `crc16_dnp` computes it.
pub proof fn lemma_crc16_is_bitwise(data: Seq<u8>)
    ensures
        crc_fold(data) == crc_register_bitwise(data),
        crc16_spec(data) == !crc_register_bitwise(data),
    decreases data.len(),
{
    if data.len() > 0 {
        lemma_crc16_is_bitwise(data.drop_last());
        lemma_crc_update_bitwise(crc_fold(data.drop_last()), data.last());
    }
}

/// The header CRC of a frame from source 3 to destination 1 (length 8,
/// control `0xC4`), whose bytes include zeros.
pub proof fn lemma_crc16_header_example()
    ensures
        crc16_spec(seq![0x08u8, 0xC4, 0x01, 0x00, 0x03, 0x00]) == 0xCAB6,
{
    let d = seq![0x08u8, 0xC4, 0x01, 0x00, 0x03, 0x00];
    lemma_crc16_is_bitwise(d);
    reveal_with_fuel(crc_register_bitwise, 7);
    assert(d.drop_last() =~= seq![0x08u8, 0xC4, 0x01, 0x00, 0x03]);
    assert(d.drop_last().drop_last() =~= seq![0x08u8, 0xC4, 0x01, 0x00]);
    assert(d.drop_last().drop_last().drop_last() =~= seq![0x08u8, 0xC4, 0x01]);
    assert(d.drop_last().drop_last().drop_last().drop_last() =~= seq![0x08u8, 0xC4]);
    assert(d.drop_last().drop_last().drop_last().drop_last().drop_last() =~= seq![0x08u8]);
    assert(seq![0x08u8].drop_last() =~= Seq::<u8>::empty());
    assert(!crc_shift_byte(
        crc_shift_byte(
            crc_shift_byte(
                crc_shift_byte(crc_shift_byte(crc_shift_byte(0, 0x08), 0xC4), 0x01),
                0x00,
            ),
            0x03,
        ),
        0x00,
    ) == 0xCAB6) by (bit_vector);
}

/// The 256-entry CRC table.
pub fn precompute_crc_table() -> (table: Vec<u16>)
    ensures
        table@.len() == 256,
        forall|i: int| 0 <= i < 256 ==> #[trigger] table@[i] == table_entry(i as nat),
{
    let mut table: Vec<u16> = Vec::new();
    let mut i: u16 = 0;
    while i < 256
        invariant
            i <= 256,
            table@.len() == i,
            forall|t: int| 0 <= t < i ==> #[trigger] table@[t] == table_entry(t as nat),
        decreases 256 - i,
    {
        let mut crc: u16 = i;
        let mut j: u32 = 0;
        while j < 8
            invariant
                j <= 8,
                crc_step(crc, j as nat) == crc_step(i, 0),
            decreases 8 - j,
        {
            if (crc & 0x0001) != 0 {
                crc = (crc >> 1) ^ CRC_POLY;
            } else {
                crc = crc >> 1;
            }
            j = j + 1;
        }
        table.push(crc);
        i = i + 1;
    }
    table
}

/// CRC-16/DNP over `data`.
pub fn crc16_dnp(data: &[u8]) -> (r: u16)
    ensures
        r == crc16_spec(data@),
{
    let table = precompute_crc_table();
    let mut crc: u16 = 0;
    let mut k: usize = 0;
    while k < data.len()
        invariant
            k <= data@.len(),
            table@.len() == 256,
            forall|i: int| 0 <= i < 256 ==> #[trigger] table@[i] == table_entry(i as nat),
            crc == crc_fold(data@.subrange(0, k as int)),
        decreases data@.len() - k,
    {
        let b = data[k];
        let idx = ((crc ^ b as u16) & 0xFF) as usize;
        assert(((crc ^ b as u16) & 0xFF) < 256) by (bit_vector);
        crc = (crc >> 8) ^ table[idx];
        proof {
            assert(data@.subrange(0, k + 1).drop_last() =~= data@.subrange(0, k as int));
        }
        k = k + 1;
    }
    assert(data@.subrange(0, k as int) =~= data@);
    !crc
}

#[derive(Debug, Clone)]
pub struct DnpHeader {
    pub length: u8,
    pub control: u8,
    pub destination: u16,
    pub source: u16,
    pub crc_header: u16,
}

#[derive(Debug)]
pub enum DnpError {
    TooShort { have: usize, need: usize },
    BadStartBytes([u8; 2]),
    HeaderCrcMismatch { expected: u16, got: u16 },
    InsufficientPayload { declared: usize, available: usize },
}

impl DnpError {
    /// The message of the error.
    pub open spec fn message(self) -> Seq<char> {
        match self {
            DnpError::TooShort { have, need } => "DNP3 frame too short: have "@ + dec(have as nat)
                + " need "@ + dec(need as nat),
            DnpError::BadStartBytes(b) => "DNP3 bad start bytes: "@ + hex2(b[0] as nat) + hex2(
                b[1] as nat,
            ),
            DnpError::HeaderCrcMismatch { expected, got } => "DNP3 header CRC mismatch: expected 0x"@
                + hex2((expected / 256) as nat) + hex2((expected % 256) as nat) + " got 0x"@ + hex2(
                (got / 256) as nat,
            ) + hex2((got % 256) as nat),
            DnpError::InsufficientPayload { declared, available } =>
                "DNP3 payload mismatch: declared "@ + dec(declared as nat) + " available "@ + dec(
                available as nat,
            ),
        }
    }

    /// The message of the error.
    pub fn to_string(&self) -> (s: String)
        ensures
            s@ == self.message(),
    {
        match self {
            DnpError::TooShort { have, need } => {
                let mut s = String::from_str("DNP3 frame too short: have ");
                push_dec(&mut s, *have as u64);
                push_str(&mut s, " need ");
                push_dec(&mut s, *need as u64);
                s
            },
            DnpError::BadStartBytes(b) => {
                let mut s = String::from_str("DNP3 bad start bytes: ");
                push_hex2(&mut s, b[0]);
                push_hex2(&mut s, b[1]);
                s
            },
            DnpError::HeaderCrcMismatch { expected, got } => {
                let mut s = String::from_str("DNP3 header CRC mismatch: expected 0x");
                push_hex2(&mut s, (*expected / 256) as u8);
                push_hex2(&mut s, (*expected % 256) as u8);
                push_str(&mut s, " got 0x");
                push_hex2(&mut s, (*got / 256) as u8);
                push_hex2(&mut s, (*got % 256) as u8);
                s
            },
            DnpError::InsufficientPayload { declared, available } => {
                let mut s = String::from_str("DNP3 payload mismatch: declared ");
                push_dec(&mut s, *declared as u64);
                push_str(&mut s, " available ");
                push_dec(&mut s, *available as u64);
                s
            },
        }
    }
}

/// Little-endian `u16` of two bytes.
pub open spec fn le16(lo: u8, hi: u8) -> u16 {
    ((lo as nat) + (hi as nat) * 256) as u16
}

/// Little-endian bytes of a `u16`.
pub open spec fn le16_bytes(x: u16) -> Seq<u8> {
    seq![(x % 256) as u8, (x / 256) as u8]
}

/// Total frame length: the length field plus the start bytes, the length
/// field itself and the header CRC.
pub fn total_frame_len(length_field: u8) -> (r: usize)
    ensures
        r == length_field as nat + 5,
{
    (length_field as usize) + 5
}

/// The header of `buf` is present, starts right and carries a matching CRC.
pub open spec fn header_accepted(buf: Seq<u8>) -> bool {
    &&& buf.len() >= 10
    &&& buf[0] == DNP3_START_0
    &&& buf[1] == DNP3_START_1
    &&& crc16_spec(buf.subrange(2, 8)) == le16(buf[8], buf[9])
}

/// Whether the header of `buf` is present, starts right and carries a
/// matching CRC.
pub fn header_valid(buf: &[u8]) -> (r: bool)
    ensures
        r == header_accepted(buf@),
{
    if buf.len() < DLL_HEADER_SIZE {
        return false;
    }
    if !(buf[0] == DNP3_START_0 && buf[1] == DNP3_START_1) {
        return false;
    }
    let crc_header = buf[8] as u16 + (buf[9] as u16) * 256;
    crc16_dnp(&buf[2..8]) == crc_header
}

/// Splits a DNP3 frame into its header and the payload after it, up to the
/// frame end that the length field declares.
pub fn extract_payload(buf: &[u8]) -> (r: Result<(DnpHeader, Vec<u8>), DnpError>)
    requires
        header_accepted(buf@) ==> buf@[2] >= 5,
    ensures
        buf@.len() < 10 <==> r matches Err(DnpError::TooShort { .. }),
        r matches Err(DnpError::TooShort { have, need }) ==> have == buf@.len() && need == 10,
        buf@.len() >= 10 && !(buf@[0] == DNP3_START_0 && buf@[1] == DNP3_START_1) <==> r matches Err(
            DnpError::BadStartBytes(_),
        ),
        r matches Err(DnpError::BadStartBytes(b)) ==> b@ == seq![buf@[0], buf@[1]],
        buf@.len() >= 10 && buf@[0] == DNP3_START_0 && buf@[1] == DNP3_START_1 && crc16_spec(
            buf@.subrange(2, 8),
        ) != le16(buf@[8], buf@[9]) <==> r matches Err(DnpError::HeaderCrcMismatch { .. }),
        r matches Err(DnpError::HeaderCrcMismatch { expected, got }) ==> expected == crc16_spec(
            buf@.subrange(2, 8),
        ) && got == le16(buf@[8], buf@[9]),
        header_accepted(buf@) && buf@.len() < buf@[2] + 5 <==> r matches Err(
            DnpError::InsufficientPayload { .. },
        ),
        r matches Err(DnpError::InsufficientPayload { declared, available }) ==> declared
            == buf@[2] + 5 && available == buf@.len(),
        r matches Ok((h, payload)) ==> {
            &&& header_accepted(buf@)
            &&& h.length == buf@[2]
            &&& h.control == buf@[3]
            &&& h.destination == le16(buf@[4], buf@[5])
            &&& h.source == le16(buf@[6], buf@[7])
            &&& h.crc_header == le16(buf@[8], buf@[9])
            &&& payload@ == buf@.subrange(10, buf@[2] + 5)
        },
{
    if buf.len() < DLL_HEADER_SIZE {
        return Err(DnpError::TooShort { have: buf.len(), need: DLL_HEADER_SIZE });
    }
    if !(buf[0] == DNP3_START_0 && buf[1] == DNP3_START_1) {
        return Err(DnpError::BadStartBytes([buf[0], buf[1]]));
    }
    let length = buf[2];
    let control = buf[3];
    let destination = buf[4] as u16 + (buf[5] as u16) * 256;
    let source = buf[6] as u16 + (buf[7] as u16) * 256;
    let crc_header = buf[8] as u16 + (buf[9] as u16) * 256;
    let expected_crc = crc16_dnp(&buf[2..8]);
    if expected_crc != crc_header {
        return Err(DnpError::HeaderCrcMismatch { expected: expected_crc, got: crc_header });
    }
    let frame_len = total_frame_len(length);
    if buf.len() < frame_len {
        return Err(DnpError::InsufficientPayload { declared: frame_len, available: buf.len() });
    }
    let header = DnpHeader { length, control, destination, source, crc_header };
    let payload = crate::bytes::bytes_to_vec(&buf[DLL_HEADER_SIZE..frame_len]);
    Ok((header, payload))
}

/// The six header bytes covered by the header CRC.
pub open spec fn header_body(length: u8, control: u8, destination: u16, source: u16) -> Seq<u8> {
    seq![length, control] + le16_bytes(destination) + le16_bytes(source)
}

/// Rebuilds a DNP3 frame around `payload`, recomputing the length field (low
/// 8 bits of `payload.len() + 5`) and the header CRC.
pub fn reconstruct(header: &DnpHeader, payload: &[u8]) -> (out: Vec<u8>)
    ensures
        ({
            let body = header_body(
                ((payload@.len() + 5) % 256) as u8,
                header.control,
                header.destination,
                header.source,
            );
            out@ == seq![DNP3_START_0, DNP3_START_1] + body + le16_bytes(crc16_spec(body))
                + payload@
        }),
{
    let length = ((payload.len() % 256 + 5) % 256) as u8;
    assert(length == ((payload@.len() + 5) % 256) as u8);
    let mut header_body_v: Vec<u8> = Vec::new();
    header_body_v.push(length);
    header_body_v.push(header.control);
    header_body_v.push((header.destination % 256) as u8);
    header_body_v.push((header.destination / 256) as u8);
    header_body_v.push((header.source % 256) as u8);
    header_body_v.push((header.source / 256) as u8);
    assert(header_body_v@ =~= header_body(
        length,
        header.control,
        header.destination,
        header.source,
    ));
    let crc = crc16_dnp(header_body_v.as_slice());
    let mut out: Vec<u8> = Vec::new();
    out.push(DNP3_START_0);
    out.push(DNP3_START_1);
    crate::bytes::append_bytes(&mut out, header_body_v.as_slice());
    out.push((crc % 256) as u8);
    out.push((crc / 256) as u8);
    crate::bytes::append_bytes(&mut out, payload);
    assert(out@ =~= seq![DNP3_START_0, DNP3_START_1] + header_body_v@ + le16_bytes(crc) + payload@);
    out
}

/// Rebuilding a frame from what was extracted gives back the frame, up to
/// its declared end.
pub proof fn lemma_reconstruct_extract(buf: Seq<u8>, h: DnpHeader, payload: Seq<u8>)
    requires
        header_accepted(buf),
        buf[2] >= 5,
        buf.len() >= buf[2] + 5,
        h.length == buf[2],
        h.control == buf[3],
        h.destination == le16(buf[4], buf[5]),
        h.source == le16(buf[6], buf[7]),
        h.crc_header == le16(buf[8], buf[9]),
        payload == buf.subrange(10, buf[2] + 5),
    ensures
        ({
            let body = header_body(
                ((payload.len() + 5) % 256) as u8,
                h.control,
                h.destination,
                h.source,
            );
            seq![DNP3_START_0, DNP3_START_1] + body + le16_bytes(crc16_spec(body)) + payload
                == buf.subrange(0, buf[2] + 5)
        }),
{
    let body = header_body(((payload.len() + 5) % 256) as u8, h.control, h.destination, h.source);
    assert(payload.len() + 5 == buf[2]);
    assert(body =~= buf.subrange(2, 8));
    let c = crc16_spec(body);
    assert(le16_bytes(c) =~= buf.subrange(8, 10));
    assert(seq![DNP3_START_0, DNP3_START_1] + body + le16_bytes(c) + payload =~= buf.subrange(
        0,
        buf[2] + 5,
    ));
}

/// Extracting from a rebuilt frame gives back the header fields and the
/// payload, for every payload the 8-bit length field can describe.
pub proof fn lemma_extract_reconstruct(h: DnpHeader, payload: Seq<u8>)
    requires
        payload.len() <= 250,
    ensures
        ({
            let body = header_body(
                ((payload.len() + 5) % 256) as u8,
                h.control,
                h.destination,
                h.source,
            );
            let out = seq![DNP3_START_0, DNP3_START_1] + body + le16_bytes(crc16_spec(body))
                + payload;
            &&& header_accepted(out)
            &&& out[2] >= 5
            &&& out.len() == out[2] + 5
            &&& out[3] == h.control
            &&& le16(out[4], out[5]) == h.destination
            &&& le16(out[6], out[7]) == h.source
            &&& out.subrange(10, out[2] + 5) == payload
        }),
{
    let body = header_body(((payload.len() + 5) % 256) as u8, h.control, h.destination, h.source);
    let c = crc16_spec(body);
    let out = seq![DNP3_START_0, DNP3_START_1] + body + le16_bytes(c) + payload;
    assert(out.subrange(2, 8) =~= body);
    assert(out.subrange(10, out.len() as int) =~= payload);
    assert(le16((c % 256) as u8, (c / 256) as u8) == c);
    assert(le16((h.destination % 256) as u8, (h.destination / 256) as u8) == h.destination);
    assert(le16((h.source % 256) as u8, (h.source / 256) as u8) == h.source);
}

} // verus!
