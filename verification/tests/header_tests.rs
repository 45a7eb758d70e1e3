use dns_codec::error::DnsError;
use dns_codec::header::{DnsHeader, Opcode};
use dns_codec::ByteSerialize;

fn zero_header() -> DnsHeader {
    DnsHeader {
        id: 0,
        qr_indicator: false,
        opcode: Opcode::StandardQuery,
        authoritative_answer: false,
        truncation: false,
        recursion_desired: false,
        recursion_available: false,
        reserved: 0,
        response_code: 0,
        question_count: 0,
        answer_record_count: 0,
        authority_record_count: 0,
        additional_record_count: 0,
    }
}

#[test]
fn scenario_a_header_round_trips_to_identical_bytes() {
    let mut h = zero_header();
    h.id = 0x1234;
    let mut buf: Vec<u8> = Vec::new();
    h.serialize(&mut buf);
    assert_eq!(buf, vec![0x12, 0x34, 0, 0, 0, 0, 0, 0, 0, 0, 0, 0]);
    let (parsed, end) = DnsHeader::try_parse(&buf, 0).unwrap();
    assert_eq!(end, 12);
    assert_eq!(parsed, h);
    let mut again: Vec<u8> = Vec::new();
    parsed.serialize(&mut again);
    assert_eq!(again, buf);
}

#[test]
fn header_with_every_field_set_round_trips() {
    let h = DnsHeader {
        id: 0xbeef,
        qr_indicator: true,
        opcode: Opcode::ServerStatusRequest,
        authoritative_answer: true,
        truncation: true,
        recursion_desired: true,
        recursion_available: true,
        reserved: 7,
        response_code: 15,
        question_count: 1,
        answer_record_count: 2,
        authority_record_count: 3,
        additional_record_count: 4,
    };
    let mut buf: Vec<u8> = Vec::new();
    h.serialize(&mut buf);
    assert_eq!(buf[2], 0b1001_0111);
    assert_eq!(buf[3], 0b1111_1111);
    let (parsed, _) = DnsHeader::try_parse(&buf, 0).unwrap();
    assert_eq!(parsed, h);
}

#[test]
fn header_invalid_opcode_round_trips_as_invalid() {
    let mut h = zero_header();
    h.opcode = Opcode::Invalid;
    let mut buf: Vec<u8> = Vec::new();
    h.serialize(&mut buf);
    let (parsed, _) = DnsHeader::try_parse(&buf, 0).unwrap();
    assert_eq!(parsed.opcode, Opcode::Invalid);
    assert_eq!(parsed, h);
}

#[test]
fn header_unrecognized_opcode_bits_decode_to_invalid() {
    // opcode bits 0b1100 (12) do not name a known opcode
    let buf = [0u8, 0, 0b0110_0000, 0, 0, 0, 0, 0, 0, 0, 0, 0];
    let (parsed, _) = DnsHeader::try_parse(&buf, 0).unwrap();
    assert_eq!(parsed.opcode, Opcode::Invalid);
}

#[test]
fn header_short_buffer_is_not_enough_data() {
    let buf = [0u8; 11];
    let err = DnsHeader::try_parse(&buf, 0).unwrap_err();
    assert_eq!(err, DnsError::NotEnoughData { requested: 12, available: 11 });
}
