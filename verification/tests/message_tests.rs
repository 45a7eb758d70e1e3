use dns_codec::error::DnsError;
use dns_codec::header::{DnsHeader, Opcode};
use dns_codec::message::DnsMessage;
use dns_codec::name::{Label, Name};
use dns_codec::question::{Class, DnsQuestion, Type};
use dns_codec::record::{RData, ResourceRecord};
use dns_codec::ByteSerialize;

fn name_of(labels: &[&[u8]]) -> Name {
    Name {
        labels: labels
            .iter()
            .map(|l| Label { content: l.to_vec() })
            .collect(),
    }
}

fn header_with_counts(qd: u16, an: u16) -> DnsHeader {
    DnsHeader {
        id: 0x4242,
        qr_indicator: false,
        opcode: Opcode::StandardQuery,
        authoritative_answer: false,
        truncation: false,
        recursion_desired: true,
        recursion_available: false,
        reserved: 0,
        response_code: 0,
        question_count: qd,
        answer_record_count: an,
        authority_record_count: 0,
        additional_record_count: 0,
    }
}

fn sample_message() -> DnsMessage {
    DnsMessage {
        header: header_with_counts(1, 1),
        questions: vec![DnsQuestion {
            name: name_of(&[b"example", b"com"]),
            qtype: Type::A,
            class: Class::IN,
        }],
        records: vec![ResourceRecord {
            name: name_of(&[b"example", b"com"]),
            atype: Type::A,
            class: Class::IN,
            ttl: 300,
            rdata: RData::A {
                address: u32::from_be_bytes([93, 184, 216, 34]),
            },
        }],
    }
}

#[test]
fn message_round_trips_through_its_encoding() {
    let m = sample_message();
    let mut buf: Vec<u8> = Vec::new();
    m.serialize(&mut buf);
    let (parsed, end) = DnsMessage::try_parse(&buf).unwrap();
    assert_eq!(end, buf.len());
    assert_eq!(parsed, m);
}

#[test]
fn message_reads_exactly_the_counted_entries() {
    let m = sample_message();
    let mut buf: Vec<u8> = Vec::new();
    m.serialize(&mut buf);
    // trailing bytes are left unread
    buf.extend_from_slice(&[0xde, 0xad]);
    let (parsed, end) = DnsMessage::try_parse(&buf).unwrap();
    assert_eq!(end, buf.len() - 2);
    assert_eq!(parsed.questions.len(), 1);
    assert_eq!(parsed.records.len(), 1);
}

#[test]
fn every_truncated_prefix_is_not_enough_data() {
    let m = sample_message();
    let mut buf: Vec<u8> = Vec::new();
    m.serialize(&mut buf);
    for n in 0..buf.len() {
        let err = DnsMessage::try_parse(&buf[..n]).unwrap_err();
        assert!(
            matches!(err, DnsError::NotEnoughData { .. }),
            "prefix of length {} gave {:?}",
            n,
            err
        );
    }
}

#[test]
fn scenario_c_pointer_question_decodes_to_the_first_name() {
    // a 2-question message: the first name spelled out at offset 12, the
    // second a compression pointer to that offset
    let mut buf: Vec<u8> = Vec::new();
    header_with_counts(2, 0).serialize(&mut buf);
    assert_eq!(buf.len(), 12);
    buf.push(0x0c);
    buf.extend_from_slice(b"codecrafters");
    buf.push(0x02);
    buf.extend_from_slice(b"io");
    buf.push(0x00);
    buf.extend_from_slice(&[0x00, 0x01, 0x00, 0x01]); // type A, class IN
    buf.push(0xc0);
    buf.push(0x0c); // pointer to offset 12
    buf.extend_from_slice(&[0x00, 0x01, 0x00, 0x01]);
    let (parsed, end) = DnsMessage::try_parse(&buf).unwrap();
    assert_eq!(end, buf.len());
    assert_eq!(parsed.questions.len(), 2);
    let first: Vec<Vec<u8>> = parsed.questions[0]
        .name
        .labels
        .iter()
        .map(|l| l.content.clone())
        .collect();
    assert_eq!(first, vec![b"codecrafters".to_vec(), b"io".to_vec()]);
    assert_eq!(parsed.questions[1].name, parsed.questions[0].name);
}

#[test]
fn message_check_functions_reflect_its_state() {
    let m = sample_message();
    assert!(m.check_serializable());
    assert!(m.check_counts());
    let mut bad_counts = sample_message();
    bad_counts.header.question_count = 5;
    assert!(!bad_counts.check_counts());
    let mut bad_header = sample_message();
    bad_header.header.reserved = 8;
    assert!(!bad_header.check_serializable());
    let mut bad_label = sample_message();
    bad_label.questions[0].name.labels[0].content = vec![0u8; 300];
    assert!(!bad_label.check_serializable());
}

#[test]
fn message_with_too_few_questions_is_not_enough_data() {
    let mut buf: Vec<u8> = Vec::new();
    header_with_counts(2, 0).serialize(&mut buf);
    // only one question present
    buf.push(0x01);
    buf.push(b'a');
    buf.push(0x00);
    buf.extend_from_slice(&[0x00, 0x01, 0x00, 0x01]);
    let err = DnsMessage::try_parse(&buf).unwrap_err();
    assert_eq!(err, DnsError::NotEnoughData { requested: 1, available: 0 });
}
