use vstd::prelude::*;

use crate::header::{DnsHeader, Opcode};
use crate::message::{question_views, record_views, DnsMessage};
use crate::name::labels_fit;
use crate::question::{Class, DnsQuestion, Type};
use crate::record::{RData, RecordView, ResourceRecord};

verus! {

/// The fixed address every stub answer carries: 8.8.8.8 as a big-endian
/// 32-bit value.
pub const STUB_ADDRESS: u32 = 0x0808_0808;

/// The TTL of every stub answer, in seconds.
pub const STUB_TTL: u32 = 60;

/// The header of a reply: the query's header with the reply indicator set,
/// the authoritative, truncation and recursion-available flags cleared, the
/// reserved field cleared, the response code 0 for a standard query and 4
/// ("not implemented") otherwise, and the answer count as given.
pub open spec fn response_header_spec(h: DnsHeader, answers: u16) -> DnsHeader {
    DnsHeader {
        qr_indicator: true,
        authoritative_answer: false,
        truncation: false,
        recursion_available: false,
        reserved: 0,
        response_code: if h.opcode is StandardQuery {
            0
        } else {
            4
        },
        answer_record_count: answers,
        ..h
    }
}

/// Rewrites a query header into the reply header with `answers` answers.
pub fn response_header(h: &DnsHeader, answers: u16) -> (r: DnsHeader)
    ensures
        r == response_header_spec(*h, answers),
        r.wf(),
{
    let mut header = *h;
    header.qr_indicator = true;
    header.authoritative_answer = false;
    header.truncation = false;
    header.recursion_available = false;
    header.reserved = 0;
    if header.opcode == Opcode::StandardQuery {
        header.response_code = 0;
    } else {
        header.response_code = 4;
    }
    header.answer_record_count = answers;
    header
}

/// Stub-answer mode: for each question, synthesize one `A` record with the
/// question's name, class `IN`, TTL 60 and address 8.8.8.8; the header is
/// rewritten as a reply whose answer count is the question count.  This
/// never fails.
pub fn stub_response(message: DnsMessage) -> (r: DnsMessage)
    requires
        message@.counts_match(),
    ensures
        r@.header == response_header_spec(message@.header, message@.header.question_count),
        r@.questions == message@.questions,
        r@.records.len() == message@.questions.len(),
        forall|i: int|
            0 <= i < r@.records.len() ==> #[trigger] r@.records[i] == (RecordView {
                name: message@.questions[i].name,
                atype: Type::A,
                class: Class::IN,
                ttl: STUB_TTL,
                rdata: RData::A { address: STUB_ADDRESS },
            }),
        message@.wf() ==> r@.wf(),
        r@.counts_match(),
{
    let header = response_header(&message.header, message.header.question_count);
    let mut records: Vec<ResourceRecord> = Vec::new();
    let mut i: usize = 0;
    while i < message.questions.len()
        invariant
            i <= message.questions@.len(),
            records@.len() == i,
            forall|k: int|
                0 <= k < i ==> #[trigger] record_views(records@)[k] == (RecordView {
                    name: question_views(message.questions@)[k].name,
                    atype: Type::A,
                    class: Class::IN,
                    ttl: STUB_TTL,
                    rdata: RData::A { address: STUB_ADDRESS },
                }),
        decreases message.questions@.len() - i,
    {
        let rec = ResourceRecord {
            name: message.questions[i].name.duplicate(),
            atype: Type::A,
            class: Class::IN,
            ttl: STUB_TTL,
            rdata: RData::A { address: STUB_ADDRESS },
        };
        proof {
            assert(rec@.name == question_views(message.questions@)[i as int].name);
        }
        let ghost before = records@;
        records.push(rec);
        proof {
            assert forall|k: int|
                0 <= k < i + 1 implies #[trigger] record_views(records@)[k] == (RecordView {
                name: question_views(message.questions@)[k].name,
                atype: Type::A,
                class: Class::IN,
                ttl: STUB_TTL,
                rdata: RData::A { address: STUB_ADDRESS },
            }) by {
                if k < i as int {
                    assert(record_views(records@)[k] == record_views(before)[k]);
                } else {
                    assert(record_views(records@)[k] == rec@);
                }
            }
        }
        i = i + 1;
    }
    let r = DnsMessage { header, questions: message.questions, records };
    proof {
        if message@.wf() {
            assert forall|k: int|
                0 <= k < r@.records.len() implies labels_fit(#[trigger] r@.records[k].name) by {
                assert(r@.records[k].name == message@.questions[k].name);
                assert(labels_fit(message@.questions[k].name));
            }
        }
    }
    r
}

/// Forwarding mode, step one: the singleton sub-message for one question —
/// the query's header with its question count forced to 1, that question
/// alone, and no records.
pub fn sub_query(header: &DnsHeader, question: &DnsQuestion) -> (r: DnsMessage)
    ensures
        r@.header == (DnsHeader { question_count: 1, ..*header }),
        r@.questions == seq![question@],
        r@.records == Seq::<RecordView>::empty(),
        header.wf() && labels_fit(question@.name) ==> r@.wf(),
{
    let mut h = *header;
    h.question_count = 1;
    let questions = vec![question.duplicate()];
    let records: Vec<ResourceRecord> = Vec::new();
    let r = DnsMessage { header: h, questions, records };
    proof {
        assert(r@.questions =~= seq![question@]);
        assert(r@.records =~= Seq::<RecordView>::empty());
    }
    r
}

/// Forwarding mode, step two: the final reply — the original question list,
/// the answers aggregated from the upstream replies in question order, and
/// the header rewritten as a reply whose answer count is the aggregate
/// length.
pub fn forward_response(message: DnsMessage, answers: Vec<ResourceRecord>) -> (r: DnsMessage)
    requires
        answers@.len() <= u16::MAX,
    ensures
        r@.header == response_header_spec(message@.header, answers@.len() as u16),
        r@.questions == message@.questions,
        r@.records == record_views(answers@),
        message@.wf() && (forall|i: int|
            0 <= i < answers@.len() ==> labels_fit(#[trigger] record_views(answers@)[i].name))
            ==> r@.wf(),
        message@.counts_match() ==> r@.counts_match(),
{
    let header = response_header(&message.header, answers.len() as u16);
    DnsMessage { header, questions: message.questions, records: answers }
}

} // verus!
