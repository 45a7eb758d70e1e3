use dns_codec::header::{DnsHeader, Opcode};
use dns_codec::message::DnsMessage;
use dns_codec::name::{Label, Name};
use dns_codec::question::{Class, DnsQuestion, Type};
use dns_codec::record::{RData, ResourceRecord};
use dns_codec::responder::{forward_response, response_header, stub_response, sub_query};
use dns_codec::ByteSerialize;

fn name_of(labels: &[&[u8]]) -> Name {
    Name {
        labels: labels
            .iter()
            .map(|l| Label { content: l.to_vec() })
            .collect(),
    }
}

fn query_header(qd: u16) -> DnsHeader {
    DnsHeader {
        id: 0x1eaf,
        qr_indicator: false,
        opcode: Opcode::StandardQuery,
        authoritative_answer: false,
        truncation: false,
        recursion_desired: true,
        recursion_available: false,
        reserved: 2,
        response_code: 0,
        question_count: qd,
        answer_record_count: 0,
        authority_record_count: 0,
        additional_record_count: 0,
    }
}

fn question_for(labels: &[&[u8]]) -> DnsQuestion {
    DnsQuestion {
        name: name_of(labels),
        qtype: Type::A,
        class: Class::IN,
    }
}

#[test]
fn response_header_rewrites_the_reply_fields() {
    let mut h = query_header(3);
    h.authoritative_answer = true;
    h.truncation = true;
    h.recursion_available = true;
    h.response_code = 9;
    let r = response_header(&h, 7);
    assert!(r.qr_indicator);
    assert!(!r.authoritative_answer);
    assert!(!r.truncation);
    assert!(r.recursion_desired);
    assert!(!r.recursion_available);
    assert_eq!(r.reserved, 0);
    assert_eq!(r.response_code, 0);
    assert_eq!(r.id, h.id);
    assert_eq!(r.opcode, h.opcode);
    assert_eq!(r.question_count, 3);
    assert_eq!(r.answer_record_count, 7);
}

#[test]
fn response_header_answers_not_implemented_for_other_opcodes() {
    let mut h = query_header(1);
    h.opcode = Opcode::InverseQuery;
    assert_eq!(response_header(&h, 1).response_code, 4);
    h.opcode = Opcode::Invalid;
    assert_eq!(response_header(&h, 1).response_code, 4);
    h.opcode = Opcode::StandardQuery;
    assert_eq!(response_header(&h, 1).response_code, 0);
}

#[test]
fn scenario_d_stub_answers_one_question() {
    let query = DnsMessage {
        header: query_header(1),
        questions: vec![question_for(&[b"example", b"com"])],
        records: vec![],
    };
    let reply = stub_response(query);
    assert!(reply.header.qr_indicator);
    assert_eq!(reply.header.answer_record_count, 1);
    assert_eq!(reply.header.response_code, 0);
    assert_eq!(reply.header.id, 0x1eaf);
    assert_eq!(reply.questions.len(), 1);
    assert_eq!(reply.records.len(), 1);
    let rec = &reply.records[0];
    assert_eq!(rec.name, name_of(&[b"example", b"com"]));
    assert_eq!(rec.atype, Type::A);
    assert_eq!(rec.class, Class::IN);
    assert_eq!(rec.ttl, 60);
    assert_eq!(
        rec.rdata,
        RData::A {
            address: u32::from_be_bytes([8, 8, 8, 8])
        }
    );
}

#[test]
fn stub_answers_every_question_in_order() {
    let query = DnsMessage {
        header: query_header(2),
        questions: vec![question_for(&[b"one"]), question_for(&[b"two"])],
        records: vec![],
    };
    let reply = stub_response(query);
    assert_eq!(reply.header.answer_record_count, 2);
    assert_eq!(reply.records.len(), 2);
    assert_eq!(reply.records[0].name, name_of(&[b"one"]));
    assert_eq!(reply.records[1].name, name_of(&[b"two"]));
}

#[test]
fn sub_query_is_a_singleton_message() {
    let header = query_header(2);
    let q = question_for(&[b"example", b"io"]);
    let sub = sub_query(&header, &q);
    assert_eq!(sub.header.question_count, 1);
    assert_eq!(sub.header.id, header.id);
    assert_eq!(sub.questions.len(), 1);
    assert_eq!(sub.questions[0], q);
    assert!(sub.records.is_empty());
}

#[test]
fn scenario_e_forwarding_recombines_in_question_order() {
    let query = DnsMessage {
        header: query_header(2),
        questions: vec![question_for(&[b"one"]), question_for(&[b"two"])],
        records: vec![],
    };

    // the two singleton sub-queries, in question order
    let sub0 = sub_query(&query.header, &query.questions[0]);
    let sub1 = sub_query(&query.header, &query.questions[1]);
    assert_eq!(sub0.header.question_count, 1);
    assert_eq!(sub1.header.question_count, 1);
    assert_eq!(sub0.questions[0].name, name_of(&[b"one"]));
    assert_eq!(sub1.questions[0].name, name_of(&[b"two"]));

    // each sub-query travels as bytes; simulate a single-answer reply to each
    let mut answers: Vec<ResourceRecord> = Vec::new();
    for sub in [sub0, sub1] {
        let mut wire: Vec<u8> = Vec::new();
        sub.serialize(&mut wire);
        let (sub_parsed, _) = DnsMessage::try_parse(&wire).unwrap();
        let mut reply = stub_response(sub_parsed);
        answers.append(&mut reply.records);
    }
    assert_eq!(answers.len(), 2);

    let reply = forward_response(query, answers);
    assert!(reply.header.qr_indicator);
    assert_eq!(reply.header.answer_record_count, 2);
    assert_eq!(reply.records.len(), 2);
    assert_eq!(reply.records[0].name, name_of(&[b"one"]));
    assert_eq!(reply.records[1].name, name_of(&[b"two"]));
    assert_eq!(reply.questions.len(), 2);
}

#[test]
fn stub_reply_serializes_and_parses_back() {
    let query = DnsMessage {
        header: query_header(1),
        questions: vec![question_for(&[b"example", b"com"])],
        records: vec![],
    };
    let reply = stub_response(query);
    let mut wire: Vec<u8> = Vec::new();
    reply.serialize(&mut wire);
    let (parsed, end) = DnsMessage::try_parse(&wire).unwrap();
    assert_eq!(end, wire.len());
    assert_eq!(parsed, reply);
}
