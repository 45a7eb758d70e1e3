use dns_codec::error::DnsError;
use dns_codec::name::{Label, Name};
use dns_codec::question::{Class, DnsQuestion, Type};
use dns_codec::record::{RData, ResourceRecord};
use dns_codec::ByteSerialize;

fn name_of(labels: &[&[u8]]) -> Name {
    Name {
        labels: labels
            .iter()
            .map(|l| Label { content: l.to_vec() })
            .collect(),
    }
}

#[test]
fn type_codes_map_to_their_types() {
    assert_eq!(Type::try_from(1).unwrap(), Type::A);
    assert_eq!(Type::try_from(16).unwrap(), Type::TXT);
    assert_eq!(Type::try_from(252).unwrap(), Type::AXFR);
    assert_eq!(Type::try_from(255).unwrap(), Type::Wildcard);
    assert_eq!(Type::A.code(), 1);
    assert_eq!(Type::Wildcard.code(), 255);
}

#[test]
fn unknown_type_codes_are_invalid_type() {
    assert_eq!(Type::try_from(0).unwrap_err(), DnsError::InvalidType(0));
    assert_eq!(Type::try_from(17).unwrap_err(), DnsError::InvalidType(17));
    assert_eq!(Type::try_from(251).unwrap_err(), DnsError::InvalidType(251));
    assert_eq!(
        Type::try_from(65535).unwrap_err(),
        DnsError::InvalidType(65535)
    );
    assert_eq!(Type::try_from(0).unwrap_err().describe(), "invalid type");
}

#[test]
fn class_codes_map_to_their_classes() {
    assert_eq!(Class::try_from(1).unwrap(), Class::IN);
    assert_eq!(Class::try_from(4).unwrap(), Class::HS);
    assert_eq!(Class::try_from(255).unwrap(), Class::Wildcard);
    assert_eq!(Class::IN.code(), 1);
}

#[test]
fn unknown_class_codes_are_invalid_class() {
    assert_eq!(Class::try_from(0).unwrap_err(), DnsError::InvalidClass(0));
    assert_eq!(Class::try_from(5).unwrap_err(), DnsError::InvalidClass(5));
    assert_eq!(
        Class::try_from(65535).unwrap_err(),
        DnsError::InvalidClass(65535)
    );
    assert_eq!(Class::try_from(0).unwrap_err().describe(), "invalid class");
}

#[test]
fn question_serializes_and_parses_back() {
    let q = DnsQuestion {
        name: name_of(&[b"example", b"com"]),
        qtype: Type::A,
        class: Class::IN,
    };
    let mut buf: Vec<u8> = Vec::new();
    q.serialize(&mut buf);
    let mut expected: Vec<u8> = vec![0x07];
    expected.extend_from_slice(b"example");
    expected.push(0x03);
    expected.extend_from_slice(b"com");
    expected.extend_from_slice(&[0x00, 0x00, 0x01, 0x00, 0x01]);
    assert_eq!(buf, expected);
    let (parsed, end) = DnsQuestion::try_parse(&buf, 0).unwrap();
    assert_eq!(end, buf.len());
    assert_eq!(parsed, q);
}

#[test]
fn question_with_unknown_type_code_fails() {
    let mut buf: Vec<u8> = vec![0x01, b'a', 0x00];
    buf.extend_from_slice(&[0x00, 0x00]); // type code 0
    buf.extend_from_slice(&[0x00, 0x01]);
    let err = DnsQuestion::try_parse(&buf, 0).unwrap_err();
    assert_eq!(err, DnsError::InvalidType(0));
}

#[test]
fn question_with_unknown_class_code_fails() {
    let mut buf: Vec<u8> = vec![0x01, b'a', 0x00];
    buf.extend_from_slice(&[0x00, 0x01]);
    buf.extend_from_slice(&[0x00, 0x00]); // class code 0
    let err = DnsQuestion::try_parse(&buf, 0).unwrap_err();
    assert_eq!(err, DnsError::InvalidClass(0));
}

#[test]
fn record_serializes_with_hardcoded_rdata_length() {
    let rec = ResourceRecord {
        name: name_of(&[b"a"]),
        atype: Type::A,
        class: Class::IN,
        ttl: 60,
        rdata: RData::A {
            address: u32::from_be_bytes([8, 8, 8, 8]),
        },
    };
    let mut buf: Vec<u8> = Vec::new();
    rec.serialize(&mut buf);
    let expected = vec![
        0x01, b'a', 0x00, // name
        0x00, 0x01, // type A
        0x00, 0x01, // class IN
        0x00, 0x00, 0x00, 0x3c, // ttl 60
        0x00, 0x04, // record-data length, always 4
        8, 8, 8, 8, // address
    ];
    assert_eq!(buf, expected);
    let (parsed, end) = ResourceRecord::try_parse(&buf, 0).unwrap();
    assert_eq!(end, buf.len());
    assert_eq!(parsed, rec);
}

#[test]
fn record_data_length_field_is_consumed_but_not_validated() {
    // the length field reads 9, yet the 4-byte body is taken as an A address
    let buf = vec![
        0x00, // empty name
        0x00, 0x01, // type A
        0x00, 0x01, // class IN
        0x00, 0x00, 0x00, 0x05, // ttl 5
        0x00, 0x09, // bogus record-data length
        1, 2, 3, 4, // address
    ];
    let (parsed, end) = ResourceRecord::try_parse(&buf, 0).unwrap();
    assert_eq!(end, buf.len());
    assert_eq!(
        parsed.rdata,
        RData::A {
            address: u32::from_be_bytes([1, 2, 3, 4])
        }
    );
}

#[test]
fn not_enough_data_reports_requested_and_available() {
    // a question cut in the middle of its class field
    let q = DnsQuestion {
        name: name_of(&[b"ab"]),
        qtype: Type::MX,
        class: Class::IN,
    };
    let mut buf: Vec<u8> = Vec::new();
    q.serialize(&mut buf);
    let cut = &buf[..buf.len() - 1];
    let err = DnsQuestion::try_parse(cut, 0).unwrap_err();
    assert_eq!(err, DnsError::NotEnoughData { requested: 2, available: 1 });
    assert_eq!(err.describe(), "not enough data to parse");
}
