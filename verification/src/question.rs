use vstd::prelude::*;

use crate::error::{short_read, DnsError};
use crate::name::{encodable, labels_fit, lemma_parse_name_rec_exact, lemma_parse_name_rec_prefix,
    name_wire, parse_name, Name};
use crate::wire::{be16, lemma_be16_roundtrip, parse_u16, read_u16, write_u16};
use crate::ByteSerialize;

verus! {

/// The closed set of record type codes this codec understands.  Any other
/// code is a parse failure.
#[derive(Debug, Clone, Copy, PartialEq, Eq, Structural)]
pub enum Type {
    /// a host address
    A,
    /// an authoritative name server
    NS,
    /// a mail destination (Obsolete - use MX)
    MD,
    /// a mail forwarder (Obsolete - use MX)
    MF,
    /// the canonical name for an alias
    CNAME,
    /// marks the start of a zone of authority
    SOA,
    /// a mailbox domain name (EXPERIMENTAL)
    MB,
    /// a mail group member (EXPERIMENTAL)
    MG,
    /// a mail rename domain name (EXPERIMENTAL)
    MR,
    /// a null RR (EXPERIMENTAL)
    NULL,
    /// a well known service description
    WKS,
    /// a domain name pointer
    PTR,
    /// host information
    HINFO,
    /// mailbox or mail list information
    MINFO,
    /// mail exchange
    MX,
    /// text strings
    TXT,
    /// A request for a transfer of an entire zone (question only)
    AXFR,
    /// A request for mailbox-related records (question only)
    MAILB,
    /// A request for mail agent RRs (question only)
    MAILA,
    /// A request for all records (question only)
    Wildcard,
}

/// The 16-bit wire code of a type.
pub open spec fn type_code(t: Type) -> u16 {
    match t {
        Type::A => 1,
        Type::NS => 2,
        Type::MD => 3,
        Type::MF => 4,
        Type::CNAME => 5,
        Type::SOA => 6,
        Type::MB => 7,
        Type::MG => 8,
        Type::MR => 9,
        Type::NULL => 10,
        Type::WKS => 11,
        Type::PTR => 12,
        Type::HINFO => 13,
        Type::MINFO => 14,
        Type::MX => 15,
        Type::TXT => 16,
        Type::AXFR => 252,
        Type::MAILB => 253,
        Type::MAILA => 254,
        Type::Wildcard => 255,
    }
}

/// The type a 16-bit code denotes; codes outside the closed set fail with
/// `InvalidType` carrying the code.
pub open spec fn type_of_code(value: u16) -> Result<Type, DnsError> {
    if value == 1 {
        Ok(Type::A)
    } else if value == 2 {
        Ok(Type::NS)
    } else if value == 3 {
        Ok(Type::MD)
    } else if value == 4 {
        Ok(Type::MF)
    } else if value == 5 {
        Ok(Type::CNAME)
    } else if value == 6 {
        Ok(Type::SOA)
    } else if value == 7 {
        Ok(Type::MB)
    } else if value == 8 {
        Ok(Type::MG)
    } else if value == 9 {
        Ok(Type::MR)
    } else if value == 10 {
        Ok(Type::NULL)
    } else if value == 11 {
        Ok(Type::WKS)
    } else if value == 12 {
        Ok(Type::PTR)
    } else if value == 13 {
        Ok(Type::HINFO)
    } else if value == 14 {
        Ok(Type::MINFO)
    } else if value == 15 {
        Ok(Type::MX)
    } else if value == 16 {
        Ok(Type::TXT)
    } else if value == 252 {
        Ok(Type::AXFR)
    } else if value == 253 {
        Ok(Type::MAILB)
    } else if value == 254 {
        Ok(Type::MAILA)
    } else if value == 255 {
        Ok(Type::Wildcard)
    } else {
        Err(DnsError::InvalidType(value))
    }
}

impl Type {
    /// Maps a 16-bit code to its type; returns `InvalidType` with the code
    /// exactly when the code lies outside the closed enumeration.
    pub fn try_from(value: u16) -> (r: Result<Type, DnsError>)
        ensures
            r == type_of_code(value),
            r is Ok <==> type_of_code(value) is Ok,
    {
        match value {
            1 => Ok(Type::A),
            2 => Ok(Type::NS),
            3 => Ok(Type::MD),
            4 => Ok(Type::MF),
            5 => Ok(Type::CNAME),
            6 => Ok(Type::SOA),
            7 => Ok(Type::MB),
            8 => Ok(Type::MG),
            9 => Ok(Type::MR),
            10 => Ok(Type::NULL),
            11 => Ok(Type::WKS),
            12 => Ok(Type::PTR),
            13 => Ok(Type::HINFO),
            14 => Ok(Type::MINFO),
            15 => Ok(Type::MX),
            16 => Ok(Type::TXT),
            252 => Ok(Type::AXFR),
            253 => Ok(Type::MAILB),
            254 => Ok(Type::MAILA),
            255 => Ok(Type::Wildcard),
            _ => Err(DnsError::InvalidType(value)),
        }
    }

    /// The 16-bit wire code of this type.
    pub fn code(self) -> (r: u16)
        ensures
            r == type_code(self),
    {
        match self {
            Type::A => 1,
            Type::NS => 2,
            Type::MD => 3,
            Type::MF => 4,
            Type::CNAME => 5,
            Type::SOA => 6,
            Type::MB => 7,
            Type::MG => 8,
            Type::MR => 9,
            Type::NULL => 10,
            Type::WKS => 11,
            Type::PTR => 12,
            Type::HINFO => 13,
            Type::MINFO => 14,
            Type::MX => 15,
            Type::TXT => 16,
            Type::AXFR => 252,
            Type::MAILB => 253,
            Type::MAILA => 254,
            Type::Wildcard => 255,
        }
    }
}

/// The closed set of class codes this codec understands.
#[derive(Debug, Clone, Copy, PartialEq, Eq, Structural)]
pub enum Class {
    /// The Internet
    IN,
    /// The CSNET class (Obsolete)
    CS,
    /// The CHAOS class
    CH,
    /// Hesiod
    HS,
    /// Any class (question only)
    Wildcard,
}

/// The 16-bit wire code of a class.
pub open spec fn class_code(c: Class) -> u16 {
    match c {
        Class::IN => 1,
        Class::CS => 2,
        Class::CH => 3,
        Class::HS => 4,
        Class::Wildcard => 255,
    }
}

/// The class a 16-bit code denotes; codes outside the closed set fail with
/// `InvalidClass` carrying the code.
pub open spec fn class_of_code(value: u16) -> Result<Class, DnsError> {
    if value == 1 {
        Ok(Class::IN)
    } else if value == 2 {
        Ok(Class::CS)
    } else if value == 3 {
        Ok(Class::CH)
    } else if value == 4 {
        Ok(Class::HS)
    } else if value == 255 {
        Ok(Class::Wildcard)
    } else {
        Err(DnsError::InvalidClass(value))
    }
}

impl Class {
    /// Maps a 16-bit code to its class; returns `InvalidClass` with the
    /// code exactly when the code lies outside the closed enumeration.
    pub fn try_from(value: u16) -> (r: Result<Class, DnsError>)
        ensures
            r == class_of_code(value),
            r is Ok <==> class_of_code(value) is Ok,
    {
        match value {
            1 => Ok(Class::IN),
            2 => Ok(Class::CS),
            3 => Ok(Class::CH),
            4 => Ok(Class::HS),
            255 => Ok(Class::Wildcard),
            _ => Err(DnsError::InvalidClass(value)),
        }
    }

    /// The 16-bit wire code of this class.
    pub fn code(self) -> (r: u16)
        ensures
            r == class_code(self),
    {
        match self {
            Class::IN => 1,
            Class::CS => 2,
            Class::CH => 3,
            Class::HS => 4,
            Class::Wildcard => 255,
        }
    }
}

/// The mathematical image of a question: its resolved name and codes.
#[verifier::ext_equal]
pub ghost struct QuestionView {
    pub name: Seq<Seq<u8>>,
    pub qtype: Type,
    pub class: Class,
}

/// One entry of the question section: a name, a type and a class.
#[derive(Debug, Clone, PartialEq, Eq)]
pub struct DnsQuestion {
    pub name: Name,
    pub qtype: Type,
    pub class: Class,
}

impl View for DnsQuestion {
    type V = QuestionView;

    open spec fn view(&self) -> QuestionView {
        QuestionView { name: self.name@, qtype: self.qtype, class: self.class }
    }
}

/// The wire image of a question: uncompressed name, then big-endian type
/// and class codes.
pub open spec fn question_wire(q: QuestionView) -> Seq<u8> {
    name_wire(q.name) + be16(type_code(q.qtype)) + be16(class_code(q.class))
}

/// Decoding a question at `pos`: a name, then type and class codes, each of
/// which must lie in its closed enumeration.
pub open spec fn parse_question(buf: Seq<u8>, pos: int) -> Result<(QuestionView, int), DnsError> {
    match parse_name(buf, pos) {
        Err(e) => Err(e),
        Ok((nm, p1)) => match parse_u16(buf, p1) {
            Err(e) => Err(e),
            Ok((tv, p2)) => match type_of_code(tv) {
                Err(e) => Err(e),
                Ok(t) => match parse_u16(buf, p2) {
                    Err(e) => Err(e),
                    Ok((cv, p3)) => match class_of_code(cv) {
                        Err(e) => Err(e),
                        Ok(c) => Ok((QuestionView { name: nm, qtype: t, class: c }, p3)),
                    },
                },
            },
        },
    }
}

impl DnsQuestion {
    /// Decodes a question at `pos`, returning it with the position just
    /// past it.
    pub fn try_parse(buf: &[u8], pos: usize) -> (r: Result<(Self, usize), DnsError>)
        ensures
            match r {
                Ok((q, end)) => {
                    &&& parse_question(buf@, pos as int) == Ok::<(QuestionView, int), DnsError>(
                        (q@, end as int),
                    )
                    &&& labels_fit(q@.name)
                    &&& end <= buf@.len()
                },
                Err(e) => parse_question(buf@, pos as int) == Err::<(QuestionView, int), DnsError>(
                    e,
                ),
            },
    {
        let (name, p1) = match Name::try_parse(buf, pos) {
            Ok(v) => v,
            Err(e) => {
                return Err(e);
            },
        };
        let (tv, p2) = match read_u16(buf, p1) {
            Ok(v) => v,
            Err(e) => {
                return Err(e);
            },
        };
        let qtype = match Type::try_from(tv) {
            Ok(t) => t,
            Err(e) => {
                return Err(e);
            },
        };
        let (cv, p3) = match read_u16(buf, p2) {
            Ok(v) => v,
            Err(e) => {
                return Err(e);
            },
        };
        let class = match Class::try_from(cv) {
            Ok(c) => c,
            Err(e) => {
                return Err(e);
            },
        };
        Ok((DnsQuestion { name, qtype, class }, p3))
    }

    /// A deep copy: the same question in fresh allocations.
    pub fn duplicate(&self) -> (r: DnsQuestion)
        ensures
            r@ == self@,
    {
        DnsQuestion { name: self.name.duplicate(), qtype: self.qtype, class: self.class }
    }
}

/// Law: every type maps back to itself through its wire code.
pub proof fn lemma_type_code_round_trip(t: Type)
    ensures
        type_of_code(type_code(t)) == Ok::<Type, DnsError>(t),
{
}

/// Law: every class maps back to itself through its wire code.
pub proof fn lemma_class_code_round_trip(c: Class)
    ensures
        class_of_code(class_code(c)) == Ok::<Class, DnsError>(c),
{
}

/// Decoding at the exact encoding of a question yields the question.
pub(crate) proof fn lemma_parse_question_exact(buf: Seq<u8>, pos: int, q: QuestionView)
    requires
        encodable(q.name),
        q.name.len() <= 30,
        0 <= pos,
        pos + question_wire(q).len() <= buf.len(),
        buf.subrange(pos, pos + question_wire(q).len()) == question_wire(q),
    ensures
        parse_question(buf, pos) == Ok::<(QuestionView, int), DnsError>(
            (q, pos + question_wire(q).len()),
        ),
{
    let nw = name_wire(q.name);
    let w = question_wire(q);
    assert(w.len() == nw.len() + 4);
    assert forall|k: int| 0 <= k < w.len() implies #[trigger] buf[pos + k] == w[k] by {
        assert(buf[pos + k] == buf.subrange(pos, pos + w.len() as int)[k]);
    }
    assert(buf.subrange(pos, pos + nw.len() as int) =~= nw);
    lemma_parse_name_rec_exact(buf, pos, q.name, 0);
    let p1 = pos + nw.len() as int;
    assert(buf[p1] == w[nw.len() as int] && w[nw.len() as int] == be16(type_code(q.qtype))[0]);
    assert(buf[p1 + 1] == w[nw.len() as int + 1] && w[nw.len() as int + 1] == be16(type_code(q.qtype))[1]);
    lemma_be16_roundtrip(type_code(q.qtype));
    lemma_type_code_round_trip(q.qtype);
    let p2 = p1 + 2;
    assert(buf[p2] == w[nw.len() as int + 2] && w[nw.len() as int + 2] == be16(class_code(q.class))[0]);
    assert(buf[p2 + 1] == w[nw.len() as int + 3] && w[nw.len() as int + 3] == be16(class_code(q.class))[1]);
    lemma_be16_roundtrip(class_code(q.class));
    lemma_class_code_round_trip(q.class);
    assert((QuestionView { name: q.name, qtype: q.qtype, class: q.class }) =~= q);
}

/// Decoding a strict prefix of a question's encoding fails for want of
/// data.
pub(crate) proof fn lemma_parse_question_prefix(buf: Seq<u8>, pos: int, q: QuestionView)
    requires
        encodable(q.name),
        q.name.len() <= 30,
        0 <= pos <= buf.len(),
        buf.len() < pos + question_wire(q).len(),
        buf.subrange(pos, buf.len() as int) == question_wire(q).take(buf.len() - pos),
    ensures
        short_read(parse_question(buf, pos)),
{
    let nw = name_wire(q.name);
    let w = question_wire(q);
    assert(w.len() == nw.len() + 4);
    assert forall|k: int| 0 <= k < buf.len() - pos implies #[trigger] buf[pos + k] == w[k] by {
        assert(buf[pos + k] == buf.subrange(pos, buf.len() as int)[k]);
        assert(w.take(buf.len() - pos)[k] == w[k]);
    }
    if buf.len() < pos + nw.len() {
        assert forall|k: int|
            0 <= k < buf.len() - pos implies #[trigger] buf.subrange(pos, buf.len() as int)[k]
            == nw.take(buf.len() - pos)[k] by {
            assert(w[k] == nw[k]);
        }
        assert(buf.subrange(pos, buf.len() as int) =~= nw.take(buf.len() - pos));
        lemma_parse_name_rec_prefix(buf, pos, q.name, 0);
    } else {
        assert(buf.subrange(pos, pos + nw.len() as int) =~= nw);
        lemma_parse_name_rec_exact(buf, pos, q.name, 0);
        let p1 = pos + nw.len() as int;
        if buf.len() - p1 < 2 {
        } else {
            let k0 = nw.len() as int;
            let k1 = nw.len() as int + 1;
            assert(buf[pos + k0] == w[k0]);
            assert(buf[pos + k1] == w[k1]);
            assert(w[k0] == be16(type_code(q.qtype))[0]);
            assert(w[k1] == be16(type_code(q.qtype))[1]);
            lemma_be16_roundtrip(type_code(q.qtype));
            lemma_type_code_round_trip(q.qtype);
            let p2 = p1 + 2;
            assert(buf.len() - p2 < 2);
        }
    }
}

impl ByteSerialize for DnsQuestion {
    open spec fn wire(&self) -> Seq<u8> {
        question_wire(self@)
    }

    open spec fn serializable(&self) -> bool {
        labels_fit(self@.name)
    }

    /// Appends the uncompressed name, then the type and class codes.
    fn serialize(&self, buf: &mut Vec<u8>) {
        self.name.serialize(buf);
        write_u16(buf, self.qtype.code());
        write_u16(buf, self.class.code());
        assert(buf@ =~= old(buf)@ + question_wire(self@));
    }
}

} // verus!
