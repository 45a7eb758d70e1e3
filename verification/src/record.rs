use vstd::prelude::*;

use crate::error::{short_read, DnsError};
use crate::name::{encodable, labels_fit, lemma_parse_name_rec_exact, lemma_parse_name_rec_prefix,
    name_wire, parse_name, Name};
use crate::question::{class_code, class_of_code, lemma_class_code_round_trip,
    lemma_type_code_round_trip, type_code, type_of_code, Class, Type};
use crate::wire::{be16, be32, lemma_be16_roundtrip, lemma_be32_roundtrip, parse_u16, parse_u32,
    read_u16, read_u32, write_u16, write_u32};
use crate::ByteSerialize;

verus! {

/// Type-specific record data.  Only the `A` body (a 4-byte IPv4 address) is
/// modeled; a record of another type code would have its body misread as an
/// `A` body, a documented limitation.
#[derive(Debug, Clone, Copy, PartialEq, Eq, Structural)]
pub enum RData {
    A { address: u32 },
}

/// The wire image of record data: a record-data length field (hardcoded to
/// 4 for the `A` body), then the address bytes.
pub open spec fn rdata_wire(rd: RData) -> Seq<u8> {
    match rd {
        RData::A { address } => seq![0u8, 4u8] + be32(address),
    }
}

impl ByteSerialize for RData {
    open spec fn wire(&self) -> Seq<u8> {
        rdata_wire(*self)
    }

    open spec fn serializable(&self) -> bool {
        true
    }

    /// Appends the record-data length (always 4) and the address.
    fn serialize(&self, buf: &mut Vec<u8>) {
        match *self {
            RData::A { address } => {
                buf.push(0);
                buf.push(4);
                write_u32(buf, address);
                assert(buf@ =~= old(buf)@ + rdata_wire(*self));
            },
        }
    }
}

/// The mathematical image of a resource record.
#[verifier::ext_equal]
pub ghost struct RecordView {
    pub name: Seq<Seq<u8>>,
    pub atype: Type,
    pub class: Class,
    pub ttl: u32,
    pub rdata: RData,
}

/// One entry of the answer section: a name, type, class, time-to-live and
/// type-specific data.
#[derive(Debug, Clone, PartialEq, Eq)]
pub struct ResourceRecord {
    pub name: Name,
    pub atype: Type,
    pub class: Class,
    pub ttl: u32,
    pub rdata: RData,
}

impl View for ResourceRecord {
    type V = RecordView;

    open spec fn view(&self) -> RecordView {
        RecordView {
            name: self.name@,
            atype: self.atype,
            class: self.class,
            ttl: self.ttl,
            rdata: self.rdata,
        }
    }
}

/// The wire image of a record: uncompressed name, type, class, TTL, then
/// the record data with its length field.
pub open spec fn record_wire(r: RecordView) -> Seq<u8> {
    name_wire(r.name) + be16(type_code(r.atype)) + be16(class_code(r.class)) + be32(r.ttl)
        + rdata_wire(r.rdata)
}

/// Decoding a record at `pos`: a name, type and class codes, a 32-bit TTL,
/// then a record-data length (consumed but not validated) and a 4-byte
/// address read as an `A` body.
pub open spec fn parse_record(buf: Seq<u8>, pos: int) -> Result<(RecordView, int), DnsError> {
    match parse_name(buf, pos) {
        Err(e) => Err(e),
        Ok((nm, p1)) => match parse_u16(buf, p1) {
            Err(e) => Err(e),
            Ok((tv, p2)) => match type_of_code(tv) {
                Err(e) => Err(e),
                Ok(t) => match parse_u16(buf, p2) {
                    Err(e) => Err(e),
                    Ok((cv, p3)) => match class_of_code(cv) {
                        Err(e) => Err(e),
                        Ok(c) => match parse_u32(buf, p3) {
                            Err(e) => Err(e),
                            Ok((ttl, p4)) => match parse_u16(buf, p4) {
                                Err(e) => Err(e),
                                Ok((_rdlength, p5)) => match parse_u32(buf, p5) {
                                    Err(e) => Err(e),
                                    Ok((address, p6)) => Ok(
                                        (
                                            RecordView {
                                                name: nm,
                                                atype: t,
                                                class: c,
                                                ttl: ttl,
                                                rdata: RData::A { address },
                                            },
                                            p6,
                                        ),
                                    ),
                                },
                            },
                        },
                    },
                },
            },
        },
    }
}

impl ResourceRecord {
    /// Decodes a record at `pos`, returning it with the position just past
    /// it.
    pub fn try_parse(buf: &[u8], pos: usize) -> (r: Result<(Self, usize), DnsError>)
        ensures
            match r {
                Ok((rec, end)) => {
                    &&& parse_record(buf@, pos as int) == Ok::<(RecordView, int), DnsError>(
                        (rec@, end as int),
                    )
                    &&& labels_fit(rec@.name)
                    &&& end <= buf@.len()
                },
                Err(e) => parse_record(buf@, pos as int) == Err::<(RecordView, int), DnsError>(e),
            },
    {
        let (name, p1) = match Name::try_parse(buf, pos) {
            Ok(v) => v,
            Err(e) => {
                return Err(e);
            },
        };
        let (tv, p2) = match read_u16(buf, p1) {
            Ok(v) => v,
            Err(e) => {
                return Err(e);
            },
        };
        let atype = match Type::try_from(tv) {
            Ok(t) => t,
            Err(e) => {
                return Err(e);
            },
        };
        let (cv, p3) = match read_u16(buf, p2) {
            Ok(v) => v,
            Err(e) => {
                return Err(e);
            },
        };
        let class = match Class::try_from(cv) {
            Ok(c) => c,
            Err(e) => {
                return Err(e);
            },
        };
        let (ttl, p4) = match read_u32(buf, p3) {
            Ok(v) => v,
            Err(e) => {
                return Err(e);
            },
        };
        let (_rdlength, p5) = match read_u16(buf, p4) {
            Ok(v) => v,
            Err(e) => {
                return Err(e);
            },
        };
        let (address, p6) = match read_u32(buf, p5) {
            Ok(v) => v,
            Err(e) => {
                return Err(e);
            },
        };
        Ok((ResourceRecord { name, atype, class, ttl, rdata: RData::A { address } }, p6))
    }
}

/// Decoding at the exact encoding of a record yields the record.
pub(crate) proof fn lemma_parse_record_exact(buf: Seq<u8>, pos: int, r: RecordView)
    requires
        encodable(r.name),
        r.name.len() <= 30,
        0 <= pos,
        pos + record_wire(r).len() <= buf.len(),
        buf.subrange(pos, pos + record_wire(r).len()) == record_wire(r),
    ensures
        parse_record(buf, pos) == Ok::<(RecordView, int), DnsError>(
            (r, pos + record_wire(r).len()),
        ),
{
    let nw = name_wire(r.name);
    let w = record_wire(r);
    let address = r.rdata->address;
    assert(rdata_wire(r.rdata).len() == 6);
    assert(w.len() == nw.len() + 14);
    assert forall|k: int| 0 <= k < w.len() implies #[trigger] buf[pos + k] == w[k] by {
        assert(buf[pos + k] == buf.subrange(pos, pos + w.len() as int)[k]);
    }
    assert(buf.subrange(pos, pos + nw.len() as int) =~= nw);
    lemma_parse_name_rec_exact(buf, pos, r.name, 0);
    let base = nw.len() as int;
    assert(buf[pos + base] == w[base] && w[base] == be16(type_code(r.atype))[0]);
    assert(buf[pos + (base + 1)] == w[base + 1] && w[base + 1] == be16(type_code(r.atype))[1]);
    assert(buf[pos + (base + 2)] == w[base + 2] && w[base + 2] == be16(class_code(r.class))[0]);
    assert(buf[pos + (base + 3)] == w[base + 3] && w[base + 3] == be16(class_code(r.class))[1]);
    assert(buf[pos + (base + 4)] == w[base + 4] && w[base + 4] == be32(r.ttl)[0]);
    assert(buf[pos + (base + 5)] == w[base + 5] && w[base + 5] == be32(r.ttl)[1]);
    assert(buf[pos + (base + 6)] == w[base + 6] && w[base + 6] == be32(r.ttl)[2]);
    assert(buf[pos + (base + 7)] == w[base + 7] && w[base + 7] == be32(r.ttl)[3]);
    assert(buf[pos + (base + 10)] == w[base + 10] && w[base + 10] == be32(address)[0]);
    assert(buf[pos + (base + 11)] == w[base + 11] && w[base + 11] == be32(address)[1]);
    assert(buf[pos + (base + 12)] == w[base + 12] && w[base + 12] == be32(address)[2]);
    assert(buf[pos + (base + 13)] == w[base + 13] && w[base + 13] == be32(address)[3]);
    lemma_be16_roundtrip(type_code(r.atype));
    lemma_be16_roundtrip(class_code(r.class));
    lemma_be32_roundtrip(r.ttl);
    lemma_be32_roundtrip(address);
    lemma_type_code_round_trip(r.atype);
    lemma_class_code_round_trip(r.class);
    assert((RecordView {
        name: r.name,
        atype: r.atype,
        class: r.class,
        ttl: r.ttl,
        rdata: RData::A { address },
    }) =~= r);
}

/// Decoding a strict prefix of a record's encoding fails for want of data.
pub(crate) proof fn lemma_parse_record_prefix(buf: Seq<u8>, pos: int, r: RecordView)
    requires
        encodable(r.name),
        r.name.len() <= 30,
        0 <= pos <= buf.len(),
        buf.len() < pos + record_wire(r).len(),
        buf.subrange(pos, buf.len() as int) == record_wire(r).take(buf.len() - pos),
    ensures
        short_read(parse_record(buf, pos)),
{
    let nw = name_wire(r.name);
    let w = record_wire(r);
    assert(rdata_wire(r.rdata).len() == 6);
    assert(w.len() == nw.len() + 14);
    assert forall|k: int| 0 <= k < buf.len() - pos implies #[trigger] buf[pos + k] == w[k] by {
        assert(buf[pos + k] == buf.subrange(pos, buf.len() as int)[k]);
        assert(w.take(buf.len() - pos)[k] == w[k]);
    }
    if buf.len() < pos + nw.len() {
        assert forall|k: int|
            0 <= k < buf.len() - pos implies #[trigger] buf.subrange(pos, buf.len() as int)[k]
            == nw.take(buf.len() - pos)[k] by {
            assert(w[k] == nw[k]);
        }
        assert(buf.subrange(pos, buf.len() as int) =~= nw.take(buf.len() - pos));
        lemma_parse_name_rec_prefix(buf, pos, r.name, 0);
    } else {
        assert(buf.subrange(pos, pos + nw.len() as int) =~= nw);
        lemma_parse_name_rec_exact(buf, pos, r.name, 0);
        let base = nw.len() as int;
        let p1 = pos + base;
        if buf.len() - p1 < 2 {
        } else {
            assert(buf[pos + base] == w[base] && w[base] == be16(type_code(r.atype))[0]);
            assert(buf[pos + (base + 1)] == w[base + 1] && w[base + 1] == be16(
                type_code(r.atype),
            )[1]);
            lemma_be16_roundtrip(type_code(r.atype));
            lemma_type_code_round_trip(r.atype);
            let p2 = p1 + 2;
            if buf.len() - p2 < 2 {
            } else {
                assert(buf[pos + (base + 2)] == w[base + 2] && w[base + 2] == be16(
                    class_code(r.class),
                )[0]);
                assert(buf[pos + (base + 3)] == w[base + 3] && w[base + 3] == be16(
                    class_code(r.class),
                )[1]);
                lemma_be16_roundtrip(class_code(r.class));
                lemma_class_code_round_trip(r.class);
                let p3 = p2 + 2;
                if buf.len() - p3 < 4 {
                } else {
                    let p4 = p3 + 4;
                    if buf.len() - p4 < 2 {
                    } else {
                        let p5 = p4 + 2;
                        assert(buf.len() - p5 < 4);
                    }
                }
            }
        }
    }
}

impl ByteSerialize for ResourceRecord {
    open spec fn wire(&self) -> Seq<u8> {
        record_wire(self@)
    }

    open spec fn serializable(&self) -> bool {
        labels_fit(self@.name)
    }

    /// Appends the uncompressed name, type, class and TTL, then the record
    /// data.
    fn serialize(&self, buf: &mut Vec<u8>) {
        self.name.serialize(buf);
        write_u16(buf, self.atype.code());
        write_u16(buf, self.class.code());
        write_u32(buf, self.ttl);
        self.rdata.serialize(buf);
        assert(buf@ =~= old(buf)@ + record_wire(self@));
    }
}

} // verus!
