use vstd::prelude::*;

use crate::error::{short_read, DnsError};
use crate::header::{header_wire, lemma_header_round_trip, parse_header, DnsHeader};
use crate::name::{encodable, labels_fit};
use crate::question::{lemma_parse_question_exact, lemma_parse_question_prefix, parse_question,
    question_wire, DnsQuestion, QuestionView};
use crate::record::{lemma_parse_record_exact, lemma_parse_record_prefix, parse_record,
    record_wire, RecordView, ResourceRecord};
use crate::ByteSerialize;

verus! {

/// The mathematical image of a whole message.
#[verifier::ext_equal]
pub ghost struct MessageView {
    pub header: DnsHeader,
    pub questions: Seq<QuestionView>,
    pub records: Seq<RecordView>,
}

impl MessageView {
    /// Everything the encoder needs: header fields in range and every name
    /// short enough to re-emit.
    pub open spec fn wf(self) -> bool {
        &&& self.header.wf()
        &&& forall|i: int|
            0 <= i < self.questions.len() ==> labels_fit(#[trigger] self.questions[i].name)
        &&& forall|i: int|
            0 <= i < self.records.len() ==> labels_fit(#[trigger] self.records[i].name)
    }

    /// The header counts agree with the sections actually present.  The
    /// encoder performs no reconciliation: this is the caller's contract.
    pub open spec fn counts_match(self) -> bool {
        &&& self.header.question_count == self.questions.len()
        &&& self.header.answer_record_count == self.records.len()
    }
}

/// A parsed message: header, question section, answer section.
#[derive(Debug, Clone, PartialEq, Eq)]
pub struct DnsMessage {
    pub header: DnsHeader,
    pub questions: Vec<DnsQuestion>,
    pub records: Vec<ResourceRecord>,
}

/// The question images of a vector of questions.
pub open spec fn question_views(qs: Seq<DnsQuestion>) -> Seq<QuestionView> {
    qs.map_values(|q: DnsQuestion| q@)
}

/// The record images of a vector of records.
pub open spec fn record_views(rs: Seq<ResourceRecord>) -> Seq<RecordView> {
    rs.map_values(|r: ResourceRecord| r@)
}

impl View for DnsMessage {
    type V = MessageView;

    open spec fn view(&self) -> MessageView {
        MessageView {
            header: self.header,
            questions: question_views(self.questions@),
            records: record_views(self.records@),
        }
    }
}

/// The wire image of a question section.
pub open spec fn questions_wire(qs: Seq<QuestionView>) -> Seq<u8>
    decreases qs.len(),
{
    if qs.len() == 0 {
        seq![]
    } else {
        question_wire(qs[0]) + questions_wire(qs.drop_first())
    }
}

/// The wire image of an answer section.
pub open spec fn records_wire(rs: Seq<RecordView>) -> Seq<u8>
    decreases rs.len(),
{
    if rs.len() == 0 {
        seq![]
    } else {
        record_wire(rs[0]) + records_wire(rs.drop_first())
    }
}

/// The wire image of a whole message: header bytes, then each question's
/// bytes in order, then each record's bytes in order.
pub open spec fn message_wire(m: MessageView) -> Seq<u8> {
    header_wire(m.header) + questions_wire(m.questions) + records_wire(m.records)
}

/// Decoding exactly `n` questions starting at `pos`.
pub open spec fn parse_questions(buf: Seq<u8>, pos: int, n: int) -> Result<
    (Seq<QuestionView>, int),
    DnsError,
>
    decreases n,
{
    if n <= 0 {
        Ok((seq![], pos))
    } else {
        match parse_question(buf, pos) {
            Err(e) => Err(e),
            Ok((q, p1)) => match parse_questions(buf, p1, n - 1) {
                Err(e) => Err(e),
                Ok((qs, end)) => Ok((seq![q] + qs, end)),
            },
        }
    }
}

/// Decoding exactly `n` records starting at `pos`.
pub open spec fn parse_records(buf: Seq<u8>, pos: int, n: int) -> Result<
    (Seq<RecordView>, int),
    DnsError,
>
    decreases n,
{
    if n <= 0 {
        Ok((seq![], pos))
    } else {
        match parse_record(buf, pos) {
            Err(e) => Err(e),
            Ok((r, p1)) => match parse_records(buf, p1, n - 1) {
                Err(e) => Err(e),
                Ok((rs, end)) => Ok((seq![r] + rs, end)),
            },
        }
    }
}

/// Decoding a whole message from the start of `buf`: the header, then
/// exactly as many questions and answer records as its counts announce.
/// Any shortfall surfaces the underlying codec error.
pub open spec fn parse_message(buf: Seq<u8>) -> Result<(MessageView, int), DnsError> {
    match parse_header(buf, 0) {
        Err(e) => Err(e),
        Ok((h, p1)) => match parse_questions(buf, p1, h.question_count as int) {
            Err(e) => Err(e),
            Ok((qs, p2)) => match parse_records(buf, p2, h.answer_record_count as int) {
                Err(e) => Err(e),
                Ok((rs, p3)) => Ok((MessageView { header: h, questions: qs, records: rs }, p3)),
            },
        },
    }
}

impl DnsMessage {
    /// Decodes a whole message from the start of `buf`, returning it with
    /// the position just past the answer section.  Trailing bytes are left
    /// unread.
    pub fn try_parse(buf: &[u8]) -> (r: Result<(Self, usize), DnsError>)
        ensures
            match r {
                Ok((m, end)) => {
                    &&& parse_message(buf@) == Ok::<(MessageView, int), DnsError>((m@, end as int))
                    &&& m@.wf()
                    &&& m@.counts_match()
                    &&& end <= buf@.len()
                },
                Err(e) => parse_message(buf@) == Err::<(MessageView, int), DnsError>(e),
            },
    {
        let (header, p1) = match DnsHeader::try_parse(buf, 0) {
            Ok(v) => v,
            Err(e) => {
                return Err(e);
            },
        };
        let ghost p0 = p1 as int;
        let ghost nq = header.question_count as int;
        let mut questions: Vec<DnsQuestion> = Vec::new();
        let mut pos = p1;
        let mut k: u16 = 0;
        while k < header.question_count
            invariant
                k <= header.question_count,
                questions@.len() == k,
                pos <= buf@.len(),
                nq == header.question_count as int,
                parse_header(buf@, 0) == Ok::<(DnsHeader, int), DnsError>((header, p0)),
                forall|i: int|
                    0 <= i < questions@.len() ==> labels_fit(
                        #[trigger] question_views(questions@)[i].name,
                    ),
                ({
                    match parse_questions(buf@, pos as int, nq - k) {
                        Ok((qs, end)) => parse_questions(buf@, p0, nq) == Ok::<
                            (Seq<QuestionView>, int),
                            DnsError,
                        >((question_views(questions@) + qs, end)),
                        Err(e) => parse_questions(buf@, p0, nq) == Err::<
                            (Seq<QuestionView>, int),
                            DnsError,
                        >(e),
                    }
                }),
            decreases header.question_count - k,
        {
            let (q, p2) = match DnsQuestion::try_parse(buf, pos) {
                Ok(v) => v,
                Err(e) => {
                    return Err(e);
                },
            };
            let ghost before = questions@;
            questions.push(q);
            proof {
                assert(question_views(questions@) =~= question_views(before) + seq![q@]);
                match parse_questions(buf@, p2 as int, nq - k - 1) {
                    Ok((qs, end)) => {
                        assert(question_views(before) + (seq![q@] + qs) =~= question_views(
                            questions@,
                        ) + qs);
                    },
                    Err(e) => {},
                }
                assert forall|i: int|
                    0 <= i < questions@.len() implies labels_fit(
                    #[trigger] question_views(questions@)[i].name,
                ) by {
                    if i < before.len() {
                        assert(question_views(questions@)[i] == question_views(before)[i]);
                    } else {
                        assert(question_views(questions@)[i] == q@);
                    }
                }
            }
            pos = p2;
            k = k + 1;
        }
        proof {
            assert(question_views(questions@) + Seq::<QuestionView>::empty() =~= question_views(
                questions@,
            ));
            assert(parse_questions(buf@, p0, nq) == Ok::<(Seq<QuestionView>, int), DnsError>(
                (question_views(questions@), pos as int),
            ));
        }
        let ghost pq = pos as int;
        let ghost nr = header.answer_record_count as int;
        let mut records: Vec<ResourceRecord> = Vec::new();
        let mut k: u16 = 0;
        while k < header.answer_record_count
            invariant
                k <= header.answer_record_count,
                records@.len() == k,
                pos <= buf@.len(),
                nr == header.answer_record_count as int,
                nq == header.question_count as int,
                questions@.len() == nq,
                parse_header(buf@, 0) == Ok::<(DnsHeader, int), DnsError>((header, p0)),
                header.wf(),
                parse_questions(buf@, p0, nq) == Ok::<(Seq<QuestionView>, int), DnsError>(
                    (question_views(questions@), pq),
                ),
                forall|i: int|
                    0 <= i < questions@.len() ==> labels_fit(
                        #[trigger] question_views(questions@)[i].name,
                    ),
                forall|i: int|
                    0 <= i < records@.len() ==> labels_fit(
                        #[trigger] record_views(records@)[i].name,
                    ),
                ({
                    match parse_records(buf@, pos as int, nr - k) {
                        Ok((rs, end)) => parse_records(buf@, pq, nr) == Ok::<
                            (Seq<RecordView>, int),
                            DnsError,
                        >((record_views(records@) + rs, end)),
                        Err(e) => parse_records(buf@, pq, nr) == Err::<
                            (Seq<RecordView>, int),
                            DnsError,
                        >(e),
                    }
                }),
            decreases header.answer_record_count - k,
        {
            let (rec, p2) = match ResourceRecord::try_parse(buf, pos) {
                Ok(v) => v,
                Err(e) => {
                    return Err(e);
                },
            };
            let ghost before = records@;
            records.push(rec);
            proof {
                assert(record_views(records@) =~= record_views(before) + seq![rec@]);
                match parse_records(buf@, p2 as int, nr - k - 1) {
                    Ok((rs, end)) => {
                        assert(record_views(before) + (seq![rec@] + rs) =~= record_views(records@)
                            + rs);
                    },
                    Err(e) => {},
                }
                assert forall|i: int|
                    0 <= i < records@.len() implies labels_fit(
                    #[trigger] record_views(records@)[i].name,
                ) by {
                    if i < before.len() {
                        assert(record_views(records@)[i] == record_views(before)[i]);
                    } else {
                        assert(record_views(records@)[i] == rec@);
                    }
                }
            }
            pos = p2;
            k = k + 1;
        }
        proof {
            assert(record_views(records@) + Seq::<RecordView>::empty() =~= record_views(records@));
        }
        Ok((DnsMessage { header, questions, records }, pos))
    }

    /// Whether this message can be re-encoded: its header fields are in
    /// range and every name's labels fit their length octets.  Decoded
    /// messages always satisfy this.
    pub fn check_serializable(&self) -> (b: bool)
        ensures
            b == self@.wf(),
    {
        if !(self.header.reserved < 8 && self.header.response_code < 16) {
            return false;
        }
        let mut i: usize = 0;
        while i < self.questions.len()
            invariant
                i <= self.questions@.len(),
                self.header.wf(),
                forall|k: int|
                    0 <= k < i ==> labels_fit(#[trigger] question_views(self.questions@)[k].name),
            decreases self.questions@.len() - i,
        {
            if !name_fits(&self.questions[i].name) {
                proof {
                    assert(question_views(self.questions@)[i as int].name
                        == self.questions@[i as int]@.name);
                }
                return false;
            }
            proof {
                assert(question_views(self.questions@)[i as int].name
                    == self.questions@[i as int]@.name);
            }
            i = i + 1;
        }
        let mut i: usize = 0;
        while i < self.records.len()
            invariant
                i <= self.records@.len(),
                self.header.wf(),
                forall|k: int|
                    0 <= k < self.questions@.len() ==> labels_fit(
                        #[trigger] question_views(self.questions@)[k].name,
                    ),
                forall|k: int|
                    0 <= k < i ==> labels_fit(#[trigger] record_views(self.records@)[k].name),
            decreases self.records@.len() - i,
        {
            if !name_fits(&self.records[i].name) {
                proof {
                    assert(record_views(self.records@)[i as int].name
                        == self.records@[i as int]@.name);
                }
                return false;
            }
            proof {
                assert(record_views(self.records@)[i as int].name
                    == self.records@[i as int]@.name);
            }
            i = i + 1;
        }
        true
    }

    /// Whether the header counts agree with the sections actually present.
    pub fn check_counts(&self) -> (b: bool)
        ensures
            b == self@.counts_match(),
    {
        self.header.question_count as usize == self.questions.len()
            && self.header.answer_record_count as usize == self.records.len()
    }
}

/// Whether every label of `name` fits its length octet.
fn name_fits(name: &crate::name::Name) -> (b: bool)
    ensures
        b == labels_fit(name@),
{
    let mut i: usize = 0;
    while i < name.labels.len()
        invariant
            i <= name.labels@.len(),
            forall|k: int| 0 <= k < i ==> #[trigger] name@[k].len() <= 255,
        decreases name.labels@.len() - i,
    {
        if name.labels[i].content.len() > 255 {
            proof {
                assert(name@[i as int] == name.labels@[i as int]@);
            }
            return false;
        }
        proof {
            assert(name@[i as int] == name.labels@[i as int]@);
        }
        i = i + 1;
    }
    true
}

impl ByteSerialize for DnsMessage {
    open spec fn wire(&self) -> Seq<u8> {
        message_wire(self@)
    }

    open spec fn serializable(&self) -> bool {
        self@.wf()
    }

    /// Appends the header bytes, then each question's bytes in order, then
    /// each record's bytes in order.  No count reconciliation is performed:
    /// the caller keeps the counts consistent with the sections.
    fn serialize(&self, buf: &mut Vec<u8>) {
        self.header.serialize(buf);
        let mut i: usize = 0;
        while i < self.questions.len()
            invariant
                i <= self.questions@.len(),
                self@.wf(),
                buf@ == old(buf)@ + header_wire(self.header) + questions_wire(
                    self@.questions.take(i as int),
                ),
            decreases self.questions@.len() - i,
        {
            proof {
                assert(labels_fit(self@.questions[i as int].name));
                assert(self.questions@[i as int]@ == self@.questions[i as int]);
            }
            self.questions[i].serialize(buf);
            proof {
                lemma_questions_wire_snoc(self@.questions, i as int);
                assert(buf@ =~= old(buf)@ + header_wire(self.header) + questions_wire(
                    self@.questions.take(i + 1),
                ));
            }
            i = i + 1;
        }
        proof {
            assert(self@.questions.take(self@.questions.len() as int) =~= self@.questions);
        }
        let mut i: usize = 0;
        while i < self.records.len()
            invariant
                i <= self.records@.len(),
                self@.wf(),
                buf@ == old(buf)@ + header_wire(self.header) + questions_wire(self@.questions)
                    + records_wire(self@.records.take(i as int)),
            decreases self.records@.len() - i,
        {
            proof {
                assert(labels_fit(self@.records[i as int].name));
                assert(self.records@[i as int]@ == self@.records[i as int]);
            }
            self.records[i].serialize(buf);
            proof {
                lemma_records_wire_snoc(self@.records, i as int);
                assert(buf@ =~= old(buf)@ + header_wire(self.header) + questions_wire(
                    self@.questions,
                ) + records_wire(self@.records.take(i + 1)));
            }
            i = i + 1;
        }
        proof {
            assert(self@.records.take(self@.records.len() as int) =~= self@.records);
            assert(buf@ =~= old(buf)@ + message_wire(self@));
        }
    }
}

/// Every question's name could have produced its encoding: labels of 1 to
/// 63 bytes, at most 30 of them.
pub open spec fn questions_encodable(qs: Seq<QuestionView>) -> bool {
    forall|i: int|
        0 <= i < qs.len() ==> encodable((#[trigger] qs[i]).name) && qs[i].name.len() <= 30
}

/// Every record's name could have produced its encoding.
pub open spec fn records_encodable(rs: Seq<RecordView>) -> bool {
    forall|i: int|
        0 <= i < rs.len() ==> encodable((#[trigger] rs[i]).name) && rs[i].name.len() <= 30
}

/// Decoding at the exact encoding of a question section yields the
/// questions.
proof fn lemma_parse_questions_exact(buf: Seq<u8>, pos: int, qs: Seq<QuestionView>)
    requires
        questions_encodable(qs),
        0 <= pos,
        pos + questions_wire(qs).len() <= buf.len(),
        buf.subrange(pos, pos + questions_wire(qs).len()) == questions_wire(qs),
    ensures
        parse_questions(buf, pos, qs.len() as int) == Ok::<(Seq<QuestionView>, int), DnsError>(
            (qs, pos + questions_wire(qs).len()),
        ),
    decreases qs.len(),
{
    let w = questions_wire(qs);
    if qs.len() == 0 {
        assert(Seq::<QuestionView>::empty() =~= qs);
        assert(w.len() == 0);
    } else {
        let q0 = qs[0];
        let rest = qs.drop_first();
        let qw = question_wire(q0);
        assert(w == qw + questions_wire(rest));
        assert forall|k: int| 0 <= k < w.len() implies #[trigger] buf[pos + k] == w[k] by {
            assert(buf[pos + k] == buf.subrange(pos, pos + w.len() as int)[k]);
        }
        assert forall|k: int|
            0 <= k < qw.len() implies #[trigger] buf.subrange(pos, pos + qw.len() as int)[k]
            == qw[k] by {
            assert(buf.subrange(pos, pos + qw.len() as int)[k] == buf[pos + k]);
        }
        assert(buf.subrange(pos, pos + qw.len() as int) =~= qw);
        lemma_parse_question_exact(buf, pos, q0);
        let p1 = pos + qw.len() as int;
        assert forall|i: int|
            0 <= i < rest.len() implies encodable((#[trigger] rest[i]).name) && rest[i].name.len()
            <= 30 by {
            assert(rest[i] == qs[i + 1]);
        }
        assert forall|k: int|
            0 <= k < questions_wire(rest).len() implies #[trigger] buf.subrange(
            p1,
            p1 + questions_wire(rest).len() as int,
        )[k] == questions_wire(rest)[k] by {
            assert(buf.subrange(p1, p1 + questions_wire(rest).len() as int)[k] == buf[pos + (
            qw.len() + k)]);
            assert(w[qw.len() as int + k] == questions_wire(rest)[k]);
        }
        assert(buf.subrange(p1, p1 + questions_wire(rest).len() as int) =~= questions_wire(rest));
        lemma_parse_questions_exact(buf, p1, rest);
        assert(seq![q0] + rest =~= qs);
    }
}

/// Decoding a strict prefix of a question section fails for want of data.
proof fn lemma_parse_questions_prefix(buf: Seq<u8>, pos: int, qs: Seq<QuestionView>)
    requires
        questions_encodable(qs),
        0 <= pos <= buf.len(),
        buf.len() < pos + questions_wire(qs).len(),
        buf.subrange(pos, buf.len() as int) == questions_wire(qs).take(buf.len() - pos),
    ensures
        short_read(parse_questions(buf, pos, qs.len() as int)),
    decreases qs.len(),
{
    let w = questions_wire(qs);
    if qs.len() == 0 {
        assert(w.len() == 0);
        assert(false);
    } else {
        let q0 = qs[0];
        let rest = qs.drop_first();
        let qw = question_wire(q0);
        assert(w == qw + questions_wire(rest));
        assert forall|k: int| 0 <= k < buf.len() - pos implies #[trigger] buf[pos + k] == w[k] by {
            assert(buf[pos + k] == buf.subrange(pos, buf.len() as int)[k]);
            assert(w.take(buf.len() - pos)[k] == w[k]);
        }
        if buf.len() < pos + qw.len() {
            assert forall|k: int|
                0 <= k < buf.len() - pos implies #[trigger] buf.subrange(pos, buf.len() as int)[k]
                == qw.take(buf.len() - pos)[k] by {
                assert(buf.subrange(pos, buf.len() as int)[k] == buf[pos + k]);
                assert(w[k] == qw[k]);
            }
            assert(buf.subrange(pos, buf.len() as int) =~= qw.take(buf.len() - pos));
            lemma_parse_question_prefix(buf, pos, q0);
        } else {
            assert forall|k: int|
                0 <= k < qw.len() implies #[trigger] buf.subrange(pos, pos + qw.len() as int)[k]
                == qw[k] by {
                assert(buf.subrange(pos, pos + qw.len() as int)[k] == buf[pos + k]);
            }
            assert(buf.subrange(pos, pos + qw.len() as int) =~= qw);
            lemma_parse_question_exact(buf, pos, q0);
            let p1 = pos + qw.len() as int;
            assert forall|i: int|
                0 <= i < rest.len() implies encodable((#[trigger] rest[i]).name)
                && rest[i].name.len() <= 30 by {
                assert(rest[i] == qs[i + 1]);
            }
            assert forall|k: int|
                0 <= k < buf.len() - p1 implies #[trigger] buf.subrange(p1, buf.len() as int)[k]
                == questions_wire(rest).take(buf.len() - p1)[k] by {
                assert(buf.subrange(p1, buf.len() as int)[k] == buf[pos + (qw.len() + k)]);
                assert(w[qw.len() as int + k] == questions_wire(rest)[k]);
            }
            assert(buf.subrange(p1, buf.len() as int) =~= questions_wire(rest).take(
                buf.len() - p1,
            ));
            lemma_parse_questions_prefix(buf, p1, rest);
        }
    }
}

/// Decoding at the exact encoding of an answer section yields the records.
proof fn lemma_parse_records_exact(buf: Seq<u8>, pos: int, rs: Seq<RecordView>)
    requires
        records_encodable(rs),
        0 <= pos,
        pos + records_wire(rs).len() <= buf.len(),
        buf.subrange(pos, pos + records_wire(rs).len()) == records_wire(rs),
    ensures
        parse_records(buf, pos, rs.len() as int) == Ok::<(Seq<RecordView>, int), DnsError>(
            (rs, pos + records_wire(rs).len()),
        ),
    decreases rs.len(),
{
    let w = records_wire(rs);
    if rs.len() == 0 {
        assert(Seq::<RecordView>::empty() =~= rs);
        assert(w.len() == 0);
    } else {
        let r0 = rs[0];
        let rest = rs.drop_first();
        let rw = record_wire(r0);
        assert(w == rw + records_wire(rest));
        assert forall|k: int| 0 <= k < w.len() implies #[trigger] buf[pos + k] == w[k] by {
            assert(buf[pos + k] == buf.subrange(pos, pos + w.len() as int)[k]);
        }
        assert forall|k: int|
            0 <= k < rw.len() implies #[trigger] buf.subrange(pos, pos + rw.len() as int)[k]
            == rw[k] by {
            assert(buf.subrange(pos, pos + rw.len() as int)[k] == buf[pos + k]);
        }
        assert(buf.subrange(pos, pos + rw.len() as int) =~= rw);
        lemma_parse_record_exact(buf, pos, r0);
        let p1 = pos + rw.len() as int;
        assert forall|i: int|
            0 <= i < rest.len() implies encodable((#[trigger] rest[i]).name) && rest[i].name.len()
            <= 30 by {
            assert(rest[i] == rs[i + 1]);
        }
        assert forall|k: int|
            0 <= k < records_wire(rest).len() implies #[trigger] buf.subrange(
            p1,
            p1 + records_wire(rest).len() as int,
        )[k] == records_wire(rest)[k] by {
            assert(buf.subrange(p1, p1 + records_wire(rest).len() as int)[k] == buf[pos + (rw.len()
                + k)]);
            assert(w[rw.len() as int + k] == records_wire(rest)[k]);
        }
        assert(buf.subrange(p1, p1 + records_wire(rest).len() as int) =~= records_wire(rest));
        lemma_parse_records_exact(buf, p1, rest);
        assert(seq![r0] + rest =~= rs);
    }
}

/// Decoding a strict prefix of an answer section fails for want of data.
proof fn lemma_parse_records_prefix(buf: Seq<u8>, pos: int, rs: Seq<RecordView>)
    requires
        records_encodable(rs),
        0 <= pos <= buf.len(),
        buf.len() < pos + records_wire(rs).len(),
        buf.subrange(pos, buf.len() as int) == records_wire(rs).take(buf.len() - pos),
    ensures
        short_read(parse_records(buf, pos, rs.len() as int)),
    decreases rs.len(),
{
    let w = records_wire(rs);
    if rs.len() == 0 {
        assert(w.len() == 0);
        assert(false);
    } else {
        let r0 = rs[0];
        let rest = rs.drop_first();
        let rw = record_wire(r0);
        assert(w == rw + records_wire(rest));
        assert forall|k: int| 0 <= k < buf.len() - pos implies #[trigger] buf[pos + k] == w[k] by {
            assert(buf[pos + k] == buf.subrange(pos, buf.len() as int)[k]);
            assert(w.take(buf.len() - pos)[k] == w[k]);
        }
        if buf.len() < pos + rw.len() {
            assert forall|k: int|
                0 <= k < buf.len() - pos implies #[trigger] buf.subrange(pos, buf.len() as int)[k]
                == rw.take(buf.len() - pos)[k] by {
                assert(buf.subrange(pos, buf.len() as int)[k] == buf[pos + k]);
                assert(w[k] == rw[k]);
            }
            assert(buf.subrange(pos, buf.len() as int) =~= rw.take(buf.len() - pos));
            lemma_parse_record_prefix(buf, pos, r0);
        } else {
            assert forall|k: int|
                0 <= k < rw.len() implies #[trigger] buf.subrange(pos, pos + rw.len() as int)[k]
                == rw[k] by {
                assert(buf.subrange(pos, pos + rw.len() as int)[k] == buf[pos + k]);
            }
            assert(buf.subrange(pos, pos + rw.len() as int) =~= rw);
            lemma_parse_record_exact(buf, pos, r0);
            let p1 = pos + rw.len() as int;
            assert forall|i: int|
                0 <= i < rest.len() implies encodable((#[trigger] rest[i]).name)
                && rest[i].name.len() <= 30 by {
                assert(rest[i] == rs[i + 1]);
            }
            assert forall|k: int|
                0 <= k < buf.len() - p1 implies #[trigger] buf.subrange(p1, buf.len() as int)[k]
                == records_wire(rest).take(buf.len() - p1)[k] by {
                assert(buf.subrange(p1, buf.len() as int)[k] == buf[pos + (rw.len() + k)]);
                assert(w[rw.len() as int + k] == records_wire(rest)[k]);
            }
            assert(buf.subrange(p1, buf.len() as int) =~= records_wire(rest).take(buf.len() - p1));
            lemma_parse_records_prefix(buf, p1, rest);
        }
    }
}

/// Law: decoding any strict prefix of an encoded message fails with
/// `NotEnoughData`.  (That no memory outside the buffer is read is part of
/// every verified function here: decoding is defined and proven over the
/// buffer alone.)
pub proof fn lemma_truncated_message_short_read(m: MessageView, n: int)
    requires
        m.header.wf(),
        m.counts_match(),
        questions_encodable(m.questions),
        records_encodable(m.records),
        0 <= n < message_wire(m).len(),
    ensures
        short_read(parse_message(message_wire(m).take(n))),
{
    let w = message_wire(m);
    let hw = header_wire(m.header);
    let qw = questions_wire(m.questions);
    let rw = records_wire(m.records);
    assert(hw.len() == 12);
    let buf = w.take(n);
    assert forall|k: int| 0 <= k < n implies #[trigger] buf[k] == w[k] by {}
    if n < 12 {
        assert(crate::wire::avail(buf, 0) < 12);
    } else {
        lemma_header_round_trip(m.header);
        assert forall|k: int|
            0 <= k < 12 implies #[trigger] buf.subrange(0, 12)[k] == hw.subrange(0, 12)[k] by {
            assert(buf.subrange(0, 12)[k] == buf[k]);
            assert(w[k] == hw[k]);
        }
        assert(buf.subrange(0, 12) =~= hw.subrange(0, 12));
        assert(parse_header(buf, 0) == Ok::<(DnsHeader, int), DnsError>((m.header, 12)));
        if n < 12 + qw.len() {
            assert forall|k: int|
                0 <= k < buf.len() - 12 implies #[trigger] buf.subrange(12, buf.len() as int)[k]
                == qw.take(buf.len() - 12)[k] by {
                assert(buf.subrange(12, buf.len() as int)[k] == buf[12 + k]);
                assert(w[12 + k] == qw[k]);
            }
            assert(buf.subrange(12, buf.len() as int) =~= qw.take(buf.len() - 12));
            lemma_parse_questions_prefix(buf, 12, m.questions);
        } else {
            assert forall|k: int|
                0 <= k < qw.len() implies #[trigger] buf.subrange(12, 12 + qw.len() as int)[k]
                == qw[k] by {
                assert(buf.subrange(12, 12 + qw.len() as int)[k] == buf[12 + k]);
                assert(w[12 + k] == qw[k]);
            }
            assert(buf.subrange(12, 12 + qw.len() as int) =~= qw);
            lemma_parse_questions_exact(buf, 12, m.questions);
            let p2 = 12 + qw.len() as int;
            assert(n < p2 + rw.len());
            assert forall|k: int|
                0 <= k < buf.len() - p2 implies #[trigger] buf.subrange(p2, buf.len() as int)[k]
                == rw.take(buf.len() - p2)[k] by {
                assert(buf.subrange(p2, buf.len() as int)[k] == buf[p2 + k]);
                assert(w[p2 + k] == rw[k]);
            }
            assert(buf.subrange(p2, buf.len() as int) =~= rw.take(buf.len() - p2));
            lemma_parse_records_prefix(buf, p2, m.records);
        }
    }
}

/// The wire image of a single-question section.
proof fn lemma_questions_wire_singleton(q: QuestionView)
    ensures
        questions_wire(seq![q]) == question_wire(q),
{
    assert(seq![q].drop_first() =~= Seq::<QuestionView>::empty());
    assert(questions_wire(Seq::<QuestionView>::empty()) =~= Seq::<u8>::empty());
    assert(questions_wire(seq![q]) =~= question_wire(q));
}

/// Question sections concatenate on the wire.
proof fn lemma_questions_wire_concat(a: Seq<QuestionView>, b: Seq<QuestionView>)
    ensures
        questions_wire(a + b) == questions_wire(a) + questions_wire(b),
    decreases a.len(),
{
    if a.len() == 0 {
        assert(a + b =~= b);
        assert(questions_wire(a) =~= Seq::<u8>::empty());
        assert(questions_wire(a + b) =~= questions_wire(a) + questions_wire(b));
    } else {
        assert((a + b).drop_first() =~= a.drop_first() + b);
        lemma_questions_wire_concat(a.drop_first(), b);
        assert(questions_wire(a + b) =~= questions_wire(a) + questions_wire(b));
    }
}

/// Extending a question section by one question appends its wire image.
proof fn lemma_questions_wire_snoc(qs: Seq<QuestionView>, i: int)
    requires
        0 <= i < qs.len(),
    ensures
        questions_wire(qs.take(i + 1)) == questions_wire(qs.take(i)) + question_wire(qs[i]),
{
    assert(qs.take(i + 1) =~= qs.take(i) + seq![qs[i]]);
    lemma_questions_wire_concat(qs.take(i), seq![qs[i]]);
    lemma_questions_wire_singleton(qs[i]);
}

/// The wire image of a single-record section.
proof fn lemma_records_wire_singleton(r: RecordView)
    ensures
        records_wire(seq![r]) == record_wire(r),
{
    assert(seq![r].drop_first() =~= Seq::<RecordView>::empty());
    assert(records_wire(Seq::<RecordView>::empty()) =~= Seq::<u8>::empty());
    assert(records_wire(seq![r]) =~= record_wire(r));
}

/// Answer sections concatenate on the wire.
proof fn lemma_records_wire_concat(a: Seq<RecordView>, b: Seq<RecordView>)
    ensures
        records_wire(a + b) == records_wire(a) + records_wire(b),
    decreases a.len(),
{
    if a.len() == 0 {
        assert(a + b =~= b);
        assert(records_wire(a) =~= Seq::<u8>::empty());
        assert(records_wire(a + b) =~= records_wire(a) + records_wire(b));
    } else {
        assert((a + b).drop_first() =~= a.drop_first() + b);
        lemma_records_wire_concat(a.drop_first(), b);
        assert(records_wire(a + b) =~= records_wire(a) + records_wire(b));
    }
}

/// Extending an answer section by one record appends its wire image.
proof fn lemma_records_wire_snoc(rs: Seq<RecordView>, i: int)
    requires
        0 <= i < rs.len(),
    ensures
        records_wire(rs.take(i + 1)) == records_wire(rs.take(i)) + record_wire(rs[i]),
{
    assert(rs.take(i + 1) =~= rs.take(i) + seq![rs[i]]);
    lemma_records_wire_concat(rs.take(i), seq![rs[i]]);
    lemma_records_wire_singleton(rs[i]);
}

} // verus!
