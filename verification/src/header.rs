use vstd::prelude::*;

use crate::error::DnsError;
use crate::wire::{avail, be16, lemma_be16_roundtrip, read_u16, u16_be, write_u16};
use crate::ByteSerialize;

verus! {

/// The kind of query carried in a message.  Any 4-bit pattern other than
/// 0, 1 or 2 decodes to `Invalid` rather than failing the whole message.
#[derive(Debug, Clone, Copy, PartialEq, Eq, Structural)]
pub enum Opcode {
    StandardQuery,
    InverseQuery,
    ServerStatusRequest,
    Invalid,
}

/// The 4-bit wire value of an opcode (`Invalid` serializes as 3).
pub open spec fn opcode_value(op: Opcode) -> u8 {
    match op {
        Opcode::StandardQuery => 0,
        Opcode::InverseQuery => 1,
        Opcode::ServerStatusRequest => 2,
        Opcode::Invalid => 3,
    }
}

/// The opcode denoted by the already-masked bits `b & 0x78` of flag byte 2.
pub open spec fn opcode_of_bits(bits: u8) -> Opcode {
    if bits == 0x00 {
        Opcode::StandardQuery
    } else if bits == 0x08 {
        Opcode::InverseQuery
    } else if bits == 0x10 {
        Opcode::ServerStatusRequest
    } else {
        Opcode::Invalid
    }
}

/// The fixed 12-byte message header.
#[derive(Debug, Clone, Copy, PartialEq, Eq, Structural)]
pub struct DnsHeader {
    /// A random ID assigned to query packets. Response packets must reply with the same ID.
    pub id: u16,
    /// 1 for a reply packet, 0 for a question packet.
    pub qr_indicator: bool,
    /// Specifies the kind of query in a message.
    pub opcode: Opcode,
    /// 1 if the responding server "owns" the domain queried, i.e., it's authoritative.
    pub authoritative_answer: bool,
    /// 1 if the message is larger than 512 bytes. Always 0 in UDP responses.
    pub truncation: bool,
    /// Sender sets this to 1 if the server should recursively resolve this query, 0 otherwise.
    pub recursion_desired: bool,
    /// Server sets this to 1 to indicate that recursion is available.
    pub recursion_available: bool,
    /// Used by DNSSEC queries. At inception, it was reserved for future use.
    pub reserved: u8,
    /// Response code indicating the status of the response.
    pub response_code: u8,
    /// Number of questions in the Question section.
    pub question_count: u16,
    /// Number of records in the Answer section.
    pub answer_record_count: u16,
    /// Number of records in the Authority section.
    pub authority_record_count: u16,
    /// Number of records in the Additional record section.
    pub additional_record_count: u16,
}

/// Byte 2 of the header: QR(1) | OPCODE(4) | AA(1) | TC(1) | RD(1).
pub open spec fn flags_hi(h: DnsHeader) -> u8 {
    ((if h.qr_indicator {
        1u8
    } else {
        0u8
    }) << 7) | (opcode_value(h.opcode) << 3) | ((if h.authoritative_answer {
        1u8
    } else {
        0u8
    }) << 2) | ((if h.truncation {
        1u8
    } else {
        0u8
    }) << 1) | (if h.recursion_desired {
        1u8
    } else {
        0u8
    })
}

/// Byte 3 of the header: RA(1) | RESERVED(3) | RCODE(4).
pub open spec fn flags_lo(h: DnsHeader) -> u8 {
    ((if h.recursion_available {
        1u8
    } else {
        0u8
    }) << 7) | (h.reserved << 4) | h.response_code
}

/// The exact 12-byte image of a header.
pub open spec fn header_wire(h: DnsHeader) -> Seq<u8> {
    be16(h.id) + seq![flags_hi(h), flags_lo(h)] + be16(h.question_count) + be16(
        h.answer_record_count,
    ) + be16(h.authority_record_count) + be16(h.additional_record_count)
}

/// The header denoted by a 12-byte image.
pub open spec fn header_of_bytes(b: Seq<u8>) -> DnsHeader
    recommends
        b.len() == 12,
{
    DnsHeader {
        id: u16_be(b[0], b[1]),
        qr_indicator: b[2] & 0x80 != 0,
        opcode: opcode_of_bits(b[2] & 0x78),
        authoritative_answer: b[2] & 0x04 != 0,
        truncation: b[2] & 0x02 != 0,
        recursion_desired: b[2] & 0x01 != 0,
        recursion_available: b[3] & 0x80 != 0,
        reserved: (b[3] & 0x70) >> 4,
        response_code: b[3] & 0x0f,
        question_count: u16_be(b[4], b[5]),
        answer_record_count: u16_be(b[6], b[7]),
        authority_record_count: u16_be(b[8], b[9]),
        additional_record_count: u16_be(b[10], b[11]),
    }
}

/// Decoding a header consumes exactly 12 bytes, or fails when fewer remain.
pub open spec fn parse_header(buf: Seq<u8>, pos: int) -> Result<(DnsHeader, int), DnsError> {
    if avail(buf, pos) < 12 {
        Err(
            DnsError::NotEnoughData {
                requested: 12,
                available: avail(buf, pos) as usize,
            },
        )
    } else {
        Ok((header_of_bytes(buf.subrange(pos, pos + 12)), pos + 12))
    }
}

impl DnsHeader {
    /// Field ranges that the wire format can represent: the reserved field
    /// is 3 bits wide and the response code 4 bits wide.
    pub open spec fn wf(self) -> bool {
        self.reserved < 8 && self.response_code < 16
    }

    /// Decodes the 12-byte header found at `pos`, returning it with the
    /// position just past it.
    pub fn try_parse(buf: &[u8], pos: usize) -> (r: Result<(Self, usize), DnsError>)
        ensures
            match r {
                Ok((h, end)) => {
                    &&& parse_header(buf@, pos as int) == Ok::<(DnsHeader, int), DnsError>(
                        (h, end as int),
                    )
                    &&& h.wf()
                    &&& pos <= end <= buf@.len()
                },
                Err(e) => parse_header(buf@, pos as int) == Err::<(DnsHeader, int), DnsError>(e),
            },
    {
        if pos >= buf.len() || buf.len() - pos < 12 {
            let available = if pos <= buf.len() {
                buf.len() - pos
            } else {
                0
            };
            return Err(DnsError::NotEnoughData { requested: 12, available });
        }
        let b2 = buf[pos + 2];
        let b3 = buf[pos + 3];
        let opcode = match b2 & 0x78 {
            0x00 => Opcode::StandardQuery,
            0x08 => Opcode::InverseQuery,
            0x10 => Opcode::ServerStatusRequest,
            _ => Opcode::Invalid,
        };
        let h = DnsHeader {
            id: (buf[pos] as u16) << 8 | (buf[pos + 1] as u16),
            qr_indicator: b2 & 0x80 != 0,
            opcode,
            authoritative_answer: b2 & 0x04 != 0,
            truncation: b2 & 0x02 != 0,
            recursion_desired: b2 & 0x01 != 0,
            recursion_available: b3 & 0x80 != 0,
            reserved: (b3 & 0x70) >> 4,
            response_code: b3 & 0x0f,
            question_count: (buf[pos + 4] as u16) << 8 | (buf[pos + 5] as u16),
            answer_record_count: (buf[pos + 6] as u16) << 8 | (buf[pos + 7] as u16),
            authority_record_count: (buf[pos + 8] as u16) << 8 | (buf[pos + 9] as u16),
            additional_record_count: (buf[pos + 10] as u16) << 8 | (buf[pos + 11] as u16),
        };
        proof {
            let b = buf@.subrange(pos as int, pos + 12);
            assert(b2 == b[2] && b3 == b[3]);
            assert((b3 & 0x70) >> 4 < 8 && b3 & 0x0f < 16) by (bit_vector);
            assert(h == header_of_bytes(b));
        }
        Ok((h, pos + 12))
    }
}

impl ByteSerialize for DnsHeader {
    open spec fn wire(&self) -> Seq<u8> {
        header_wire(*self)
    }

    open spec fn serializable(&self) -> bool {
        self.wf()
    }

    /// Appends the exact inverse bit-packing of `try_parse`; field ranges
    /// beyond the type widths are the caller's responsibility.
    fn serialize(&self, buf: &mut Vec<u8>) {
        write_u16(buf, self.id);
        let op = opcode_bits(self.opcode);
        let hi = ((if self.qr_indicator {
            1u8
        } else {
            0u8
        }) << 7) | (op << 3) | ((if self.authoritative_answer {
            1u8
        } else {
            0u8
        }) << 2) | ((if self.truncation {
            1u8
        } else {
            0u8
        }) << 1) | (if self.recursion_desired {
            1u8
        } else {
            0u8
        });
        let lo = ((if self.recursion_available {
            1u8
        } else {
            0u8
        }) << 7) | (self.reserved << 4) | self.response_code;
        buf.push(hi);
        buf.push(lo);
        write_u16(buf, self.question_count);
        write_u16(buf, self.answer_record_count);
        write_u16(buf, self.authority_record_count);
        write_u16(buf, self.additional_record_count);
        assert(buf@ =~= old(buf)@ + header_wire(*self));
    }
}

/// The 4-bit wire value of an opcode, as executable code.
pub fn opcode_bits(op: Opcode) -> (r: u8)
    ensures
        r == opcode_value(op),
{
    match op {
        Opcode::StandardQuery => 0,
        Opcode::InverseQuery => 1,
        Opcode::ServerStatusRequest => 2,
        Opcode::Invalid => 3,
    }
}

/// Each flag and field of byte 2 is recovered by its mask.
proof fn lemma_flags_hi_fields(q: u8, o: u8, a: u8, t: u8, rd: u8)
    by (bit_vector)
    requires
        q <= 1,
        o <= 3,
        a <= 1,
        t <= 1,
        rd <= 1,
    ensures
        ((q << 7 | o << 3 | a << 2 | t << 1 | rd) & 0x80 != 0) == (q == 1),
        (q << 7 | o << 3 | a << 2 | t << 1 | rd) & 0x78 == o << 3,
        ((q << 7 | o << 3 | a << 2 | t << 1 | rd) & 0x04 != 0) == (a == 1),
        ((q << 7 | o << 3 | a << 2 | t << 1 | rd) & 0x02 != 0) == (t == 1),
        ((q << 7 | o << 3 | a << 2 | t << 1 | rd) & 0x01 != 0) == (rd == 1),
{
}

/// Each flag and field of byte 3 is recovered by its mask.
proof fn lemma_flags_lo_fields(ra: u8, res: u8, rc: u8)
    by (bit_vector)
    requires
        ra <= 1,
        res < 8,
        rc < 16,
    ensures
        ((ra << 7 | res << 4 | rc) & 0x80 != 0) == (ra == 1),
        ((ra << 7 | res << 4 | rc) & 0x70) >> 4 == res,
        (ra << 7 | res << 4 | rc) & 0x0f == rc,
{
}

/// Every header whose fields fit their bit widths decodes from its own
/// encoding unchanged.
pub proof fn lemma_header_round_trip(h: DnsHeader)
    requires
        h.wf(),
    ensures
        parse_header(header_wire(h), 0) == Ok::<(DnsHeader, int), DnsError>((h, 12int)),
{
    let w = header_wire(h);
    assert(w.len() == 12);
    let b = w.subrange(0, 12);
    assert(b =~= w);
    let q: u8 = if h.qr_indicator {
        1
    } else {
        0
    };
    let o = opcode_value(h.opcode);
    let a: u8 = if h.authoritative_answer {
        1
    } else {
        0
    };
    let t: u8 = if h.truncation {
        1
    } else {
        0
    };
    let rd: u8 = if h.recursion_desired {
        1
    } else {
        0
    };
    let ra: u8 = if h.recursion_available {
        1
    } else {
        0
    };
    lemma_flags_hi_fields(q, o, a, t, rd);
    lemma_flags_lo_fields(ra, h.reserved, h.response_code);
    assert(0u8 << 3 == 0x00 && 1u8 << 3 == 0x08 && 2u8 << 3 == 0x10 && 3u8 << 3 == 0x18)
        by (bit_vector);
    assert(opcode_of_bits(b[2] & 0x78) == h.opcode);
    lemma_be16_roundtrip(h.id);
    lemma_be16_roundtrip(h.question_count);
    lemma_be16_roundtrip(h.answer_record_count);
    lemma_be16_roundtrip(h.authority_record_count);
    lemma_be16_roundtrip(h.additional_record_count);
    assert(header_of_bytes(b) == h);
}

} // verus!
