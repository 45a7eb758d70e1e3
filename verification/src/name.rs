use vstd::prelude::*;

use crate::error::{short_read, DnsError, NameError};
use crate::wire::{avail, bytes_range, u16_be};
use crate::ByteSerialize;

verus! {

/// One segment of a domain name: the label's content bytes, without the
/// length prefix.
#[derive(Debug, Clone, PartialEq, Eq)]
pub struct Label {
    pub content: Vec<u8>,
}

impl View for Label {
    type V = Seq<u8>;

    open spec fn view(&self) -> Seq<u8> {
        self.content@
    }
}

/// A domain name: the resolved sequence of labels.  Two names are the same
/// name exactly when their label sequences are equal, however they were
/// encoded in the datagram they came from.
#[derive(Debug, Clone, PartialEq, Eq)]
pub struct Name {
    pub labels: Vec<Label>,
}

/// The label sequence denoted by a vector of labels.
pub open spec fn label_views(ls: Seq<Label>) -> Seq<Seq<u8>> {
    ls.map_values(|l: Label| l@)
}

impl View for Name {
    type V = Seq<Seq<u8>>;

    open spec fn view(&self) -> Seq<Seq<u8>> {
        label_views(self.labels@)
    }
}

/// The wire image of one label: its length octet, then its content.
pub open spec fn label_wire(l: Seq<u8>) -> Seq<u8> {
    seq![l.len() as u8] + l
}

/// The wire image of a run of labels, without a terminator.
pub open spec fn labels_wire(ls: Seq<Seq<u8>>) -> Seq<u8>
    decreases ls.len(),
{
    if ls.len() == 0 {
        seq![]
    } else {
        label_wire(ls[0]) + labels_wire(ls.drop_first())
    }
}

/// The full uncompressed wire image of a name: its labels, then a zero
/// terminator.  The encoder never re-introduces compression.
pub open spec fn name_wire(ls: Seq<Seq<u8>>) -> Seq<u8> {
    labels_wire(ls) + seq![0u8]
}

/// Every label is short enough for its length to fit the length octet.
/// Decoded names always satisfy this; the encoder requires it.
pub open spec fn labels_fit(ls: Seq<Seq<u8>>) -> bool {
    forall|i: int| 0 <= i < ls.len() ==> #[trigger] ls[i].len() <= 255
}

/// Labels as a well-formed uncompressed encoding produces them: each 1 to 63
/// bytes, so that no length octet collides with the terminator or with the
/// pointer tag bits.
pub open spec fn encodable(ls: Seq<Seq<u8>>) -> bool {
    forall|i: int| 0 <= i < ls.len() ==> 1 <= #[trigger] ls[i].len() <= 63
}

/// No label contains a zero byte (true of host names), so that the zero
/// terminator is the first zero byte of the encoding.
pub open spec fn no_zero_bytes(ls: Seq<Seq<u8>>) -> bool {
    forall|i: int, j: int|
        0 <= i < ls.len() && 0 <= j < ls[i].len() ==> #[trigger] ls[i][j] != 0
}

/// The position of the first zero byte at or after `i`, if any.
pub open spec fn first_zero(buf: Seq<u8>, i: int) -> Option<int>
    decreases buf.len() - i when i <= buf.len()
{
    if i < 0 || i >= buf.len() {
        None
    } else if buf[i] == 0 {
        Some(i)
    } else {
        first_zero(buf, i + 1)
    }
}

/// Splits a pointer target region into labels: each length octet introduces
/// one label; a length that overruns the region yields the remainder as the
/// final label.
pub open spec fn split_run(run: Seq<u8>) -> Seq<Seq<u8>>
    decreases run.len(),
{
    if run.len() == 0 {
        seq![]
    } else {
        let len = run[0] as int;
        if len == 0 {
            seq![]
        } else if run.len() - 1 < len {
            seq![run.subrange(1, run.len() as int)]
        } else {
            seq![run.subrange(1, 1 + len)] + split_run(run.subrange(1 + len, run.len() as int))
        }
    }
}

/// One step of name decoding at `pos`, with `cnt` labels already taken.
///
/// A zero octet ends the name; an octet with both top bits set is a
/// compression pointer, followed once (never chained) by appending the
/// labels of the run found at the 14-bit offset; any other octet is a label
/// length.  Decoding treats the name as complete once more than 30 labels
/// have been taken.
pub open spec fn parse_name_rec(buf: Seq<u8>, pos: int, cnt: int) -> Result<
    (Seq<Seq<u8>>, int),
    DnsError,
>
    decreases avail(buf, pos),
{
    if pos < 0 || pos >= buf.len() {
        Err(DnsError::NotEnoughData { requested: 1, available: 0 })
    } else {
        let b = buf[pos];
        if b == 0 {
            Ok((seq![], pos + 1))
        } else if b & 0xc0 == 0xc0 {
            if pos + 1 >= buf.len() {
                Err(DnsError::NotEnoughData { requested: 1, available: 0 })
            } else {
                let off = u16_be(b & 0x3f, buf[pos + 1]) as int;
                if off >= buf.len() {
                    Err(DnsError::InvalidName(NameError::ReferenceOutOfBounds))
                } else {
                    match first_zero(buf, off) {
                        Option::None => Err(DnsError::InvalidName(NameError::MissingTerminator)),
                        Option::Some(z) => Ok((split_run(buf.subrange(off, z)), pos + 2)),
                    }
                }
            }
        } else {
            let len = b as int;
            if avail(buf, pos + 1) < len {
                Err(
                    DnsError::NotEnoughData {
                        requested: len as usize,
                        available: avail(buf, pos + 1) as usize,
                    },
                )
            } else {
                let lab = buf.subrange(pos + 1, pos + 1 + len);
                if cnt + 1 > 30 {
                    Ok((seq![lab], pos + 1 + len))
                } else {
                    match parse_name_rec(buf, pos + 1 + len, cnt + 1) {
                        Ok((rest, end)) => Ok((seq![lab] + rest, end)),
                        Err(e) => Err(e),
                    }
                }
            }
        }
    }
}

/// Decoding a whole name from `pos`.
pub open spec fn parse_name(buf: Seq<u8>, pos: int) -> Result<(Seq<Seq<u8>>, int), DnsError> {
    parse_name_rec(buf, pos, 0)
}

/// Every label a decode can produce fits its length octet.
proof fn lemma_split_run_fits(run: Seq<u8>)
    ensures
        labels_fit(split_run(run)),
    decreases run.len(),
{
    if run.len() == 0 {
    } else {
        let len = run[0] as int;
        if len == 0 {
        } else if run.len() - 1 < len {
        } else {
            lemma_split_run_fits(run.subrange(1 + len, run.len() as int));
        }
    }
}

/// Finds the first zero byte at or after `from`.
fn find_zero(buf: &[u8], from: usize) -> (r: Option<usize>)
    requires
        from < buf@.len(),
    ensures
        match r {
            Some(z) => first_zero(buf@, from as int) == Some(z as int) && from <= z < buf@.len(),
            None => first_zero(buf@, from as int) is None,
        },
{
    let mut z = from;
    while z < buf.len()
        invariant
            from <= z <= buf@.len(),
            forall|j: int| from <= j < z ==> buf@[j] != 0,
        decreases buf@.len() - z,
    {
        if buf[z] == 0 {
            proof {
                lemma_first_zero_found(buf@, from as int, z as int);
            }
            return Some(z);
        }
        z = z + 1;
    }
    proof {
        lemma_first_zero_none(buf@, from as int);
    }
    None
}

/// A zero at `z`, with nothing but nonzero bytes before it, is the first zero.
proof fn lemma_first_zero_found(buf: Seq<u8>, from: int, z: int)
    requires
        0 <= from <= z < buf.len(),
        buf[z] == 0,
        forall|j: int| from <= j < z ==> buf[j] != 0,
    ensures
        first_zero(buf, from) == Some(z),
    decreases z - from,
{
    if from < z {
        lemma_first_zero_found(buf, from + 1, z);
    }
}

/// A region with no zero bytes has no first zero.
proof fn lemma_first_zero_none(buf: Seq<u8>, from: int)
    requires
        0 <= from <= buf.len(),
        forall|j: int| from <= j < buf.len() ==> buf[j] != 0,
    ensures
        first_zero(buf, from) is None,
    decreases buf.len() - from,
{
    if from < buf.len() {
        lemma_first_zero_none(buf, from + 1);
    }
}

/// Splits the region `buf[from..to]` into labels, appending them to `out`.
fn split_chunk_into(buf: &[u8], from: usize, to: usize, out: &mut Vec<Label>)
    requires
        from <= to <= buf@.len(),
    ensures
        label_views(final(out)@) == label_views(old(out)@) + split_run(
            buf@.subrange(from as int, to as int),
        ),
    decreases to - from,
{
    let ghost run = buf@.subrange(from as int, to as int);
    if from == to {
        assert(label_views(out@) =~= label_views(out@) + split_run(run));
        return ;
    }
    let len = buf[from] as usize;
    if len == 0 {
        assert(label_views(out@) =~= label_views(out@) + split_run(run));
        return ;
    }
    if to - (from + 1) < len {
        let lab = Label { content: bytes_range(buf, from + 1, to) };
        proof {
            assert(run.subrange(1, run.len() as int) =~= buf@.subrange(from + 1, to as int));
        }
        out.push(lab);
        assert(label_views(out@) =~= label_views(old(out)@) + split_run(run));
    } else {
        let lab = Label { content: bytes_range(buf, from + 1, from + 1 + len) };
        proof {
            assert(run.subrange(1, 1 + len) =~= buf@.subrange(from + 1, from + 1 + len));
            assert(run.subrange(1 + len as int, run.len() as int) =~= buf@.subrange(
                from + 1 + len,
                to as int,
            ));
        }
        out.push(lab);
        let ghost mid = out@;
        split_chunk_into(buf, from + 1 + len, to, out);
        assert(label_views(out@) =~= label_views(old(out)@) + split_run(run));
    }
}

impl Name {
    /// Decodes a name at `pos`: length-prefixed labels up to a zero
    /// terminator, or a compression pointer that is followed exactly once.
    pub fn try_parse(buf: &[u8], start: usize) -> (r: Result<(Self, usize), DnsError>)
        ensures
            match r {
                Ok((name, end)) => {
                    &&& parse_name(buf@, start as int) == Ok::<(Seq<Seq<u8>>, int), DnsError>(
                        (name@, end as int),
                    )
                    &&& labels_fit(name@)
                    &&& end <= buf@.len()
                },
                Err(e) => parse_name(buf@, start as int) == Err::<(Seq<Seq<u8>>, int), DnsError>(
                    e,
                ),
            },
    {
        let mut labels: Vec<Label> = Vec::new();
        let mut pos = start;
        loop
            invariant
                labels_fit(label_views(labels@)),
                pos <= buf@.len() || labels@.len() == 0,
                ({
                    let rec = parse_name_rec(buf@, pos as int, labels@.len() as int);
                    match rec {
                        Ok((rest, end)) => parse_name(buf@, start as int) == Ok::<
                            (Seq<Seq<u8>>, int),
                            DnsError,
                        >((label_views(labels@) + rest, end)),
                        Err(e) => parse_name(buf@, start as int) == Err::<
                            (Seq<Seq<u8>>, int),
                            DnsError,
                        >(e),
                    }
                }),
            decreases avail(buf@, pos as int),
        {
            let ghost cnt = labels@.len() as int;
            if pos >= buf.len() {
                return Err(DnsError::NotEnoughData { requested: 1, available: 0 });
            }
            let b = buf[pos];
            if b == 0 {
                assert(label_views(labels@) + Seq::<Seq<u8>>::empty() =~= label_views(labels@));
                return Ok((Name { labels }, pos + 1));
            } else if b & 0xc0 == 0xc0 {
                if pos + 1 >= buf.len() {
                    return Err(DnsError::NotEnoughData { requested: 1, available: 0 });
                }
                let b2 = buf[pos + 1];
                let offset = ((b & 0x3f) as u16) << 8 | (b2 as u16);
                let offset = offset as usize;
                if offset >= buf.len() {
                    return Err(DnsError::InvalidName(NameError::ReferenceOutOfBounds));
                }
                match find_zero(buf, offset) {
                    None => {
                        return Err(DnsError::InvalidName(NameError::MissingTerminator));
                    },
                    Some(z) => {
                        let ghost before = labels@;
                        split_chunk_into(buf, offset, z, &mut labels);
                        proof {
                            lemma_split_run_fits(buf@.subrange(offset as int, z as int));
                        }
                        return Ok((Name { labels }, pos + 2));
                    },
                }
            } else {
                let len = b as usize;
                if buf.len() - (pos + 1) < len {
                    return Err(
                        DnsError::NotEnoughData {
                            requested: len,
                            available: buf.len() - (pos + 1),
                        },
                    );
                }
                let lab = Label { content: bytes_range(buf, pos + 1, pos + 1 + len) };
                let ghost lab_view = buf@.subrange(pos + 1, pos + 1 + len as int);
                let ghost before = labels@;
                labels.push(lab);
                proof {
                    assert(label_views(labels@) =~= label_views(before) + seq![lab_view]);
                    assert forall|k: int|
                        0 <= k < label_views(labels@).len() implies #[trigger] label_views(
                        labels@,
                    )[k].len() <= 255 by {
                        if k < before.len() {
                            assert(label_views(labels@)[k] == label_views(before)[k]);
                            assert(label_views(before)[k].len() <= 255);
                        } else {
                            assert(label_views(labels@)[k] == lab_view);
                        }
                    }
                }
                if labels.len() > 30 {
                    proof {
                        assert(parse_name_rec(buf@, pos as int, cnt) == Ok::<
                            (Seq<Seq<u8>>, int),
                            DnsError,
                        >((seq![lab_view], pos + 1 + len)));
                        assert(label_views(before) + seq![lab_view] =~= label_views(labels@));
                    }
                    return Ok((Name { labels }, pos + 1 + len));
                }
                proof {
                    let next = parse_name_rec(buf@, pos + 1 + len, cnt + 1);
                    match next {
                        Ok((rest, end)) => {
                            assert(label_views(before) + (seq![lab_view] + rest) =~= label_views(
                                labels@,
                            ) + rest);
                        },
                        Err(e) => {},
                    }
                }
                pos = pos + 1 + len;
            }
        }
    }

    /// A deep copy: the same label sequence in a fresh allocation.
    pub fn duplicate(&self) -> (r: Name)
        ensures
            r@ == self@,
    {
        let mut labels: Vec<Label> = Vec::new();
        let mut i: usize = 0;
        while i < self.labels.len()
            invariant
                i <= self.labels@.len(),
                labels@.len() == i,
                forall|k: int| 0 <= k < i ==> #[trigger] labels@[k]@ == self.labels@[k]@,
            decreases self.labels@.len() - i,
        {
            let src = &self.labels[i];
            let s = src.content.as_slice();
            let lab = Label { content: bytes_range(s, 0, s.len()) };
            proof {
                assert(lab@ =~= self.labels@[i as int]@);
            }
            labels.push(lab);
            i = i + 1;
        }
        proof {
            assert forall|k: int|
                0 <= k < labels@.len() implies #[trigger] label_views(labels@)[k] == label_views(
                self.labels@,
            )[k] by {
                assert(label_views(labels@)[k] == labels@[k]@);
                assert(label_views(self.labels@)[k] == self.labels@[k]@);
            }
            assert(label_views(labels@) =~= label_views(self.labels@));
        }
        Name { labels }
    }
}

impl ByteSerialize for Label {
    open spec fn wire(&self) -> Seq<u8> {
        label_wire(self@)
    }

    open spec fn serializable(&self) -> bool {
        self@.len() <= 255
    }

    /// Appends the label's length octet and content bytes.
    fn serialize(&self, buf: &mut Vec<u8>) {
        buf.push(self.content.len() as u8);
        let mut i: usize = 0;
        while i < self.content.len()
            invariant
                i <= self.content@.len() <= 255,
                buf@ == old(buf)@ + seq![self.content@.len() as u8] + self.content@.take(i as int),
            decreases self.content@.len() - i,
        {
            buf.push(self.content[i]);
            assert(buf@ =~= old(buf)@ + seq![self.content@.len() as u8] + self.content@.take(
                i + 1,
            ));
            i = i + 1;
        }
        assert(buf@ =~= old(buf)@ + label_wire(self@));
    }
}

impl ByteSerialize for Name {
    open spec fn wire(&self) -> Seq<u8> {
        name_wire(self@)
    }

    open spec fn serializable(&self) -> bool {
        labels_fit(self@)
    }

    /// Appends the fully uncompressed form: every label, then a zero
    /// terminator.  Compression is never re-introduced.
    fn serialize(&self, buf: &mut Vec<u8>) {
        let mut i: usize = 0;
        while i < self.labels.len()
            invariant
                i <= self.labels@.len(),
                labels_fit(self@),
                buf@ == old(buf)@ + labels_wire(self@.take(i as int)),
            decreases self.labels@.len() - i,
        {
            proof {
                assert(self@[i as int].len() <= 255);
                assert(self.labels@[i as int]@ == self@[i as int]);
            }
            self.labels[i].serialize(buf);
            proof {
                lemma_labels_wire_snoc(self@, i as int);
                assert(buf@ =~= old(buf)@ + labels_wire(self@.take(i + 1)));
            }
            i = i + 1;
        }
        proof {
            assert(self@.take(self@.len() as int) =~= self@);
        }
        buf.push(0);
        assert(buf@ =~= old(buf)@ + name_wire(self@));
    }
}

/// The wire image of well-formed, zero-free labels contains no zero byte,
/// so the terminator is the first zero of an uncompressed encoding.
proof fn lemma_labels_wire_nonzero(ls: Seq<Seq<u8>>)
    requires
        encodable(ls),
        no_zero_bytes(ls),
    ensures
        forall|k: int| 0 <= k < labels_wire(ls).len() ==> #[trigger] labels_wire(ls)[k] != 0,
    decreases ls.len(),
{
    if ls.len() == 0 {
    } else {
        let l0 = ls[0];
        let rest = ls.drop_first();
        assert forall|i: int| 0 <= i < rest.len() implies 1 <= #[trigger] rest[i].len() <= 63 by {
            assert(rest[i] == ls[i + 1]);
        }
        assert forall|i: int, j: int|
            0 <= i < rest.len() && 0 <= j < rest[i].len() implies #[trigger] rest[i][j] != 0 by {
            assert(rest[i] == ls[i + 1]);
        }
        lemma_labels_wire_nonzero(rest);
        assert forall|k: int|
            0 <= k < labels_wire(ls).len() implies #[trigger] labels_wire(ls)[k] != 0 by {
            assert(labels_wire(ls) == label_wire(l0) + labels_wire(rest));
            if k == 0 {
                assert(labels_wire(ls)[0] == l0.len() as u8);
            } else if k < 1 + l0.len() {
                assert(labels_wire(ls)[k] == l0[k - 1]);
            } else {
                assert(labels_wire(ls)[k] == labels_wire(rest)[k - 1 - l0.len()]);
            }
        }
    }
}

/// Splitting the wire image of well-formed labels recovers the labels.
proof fn lemma_split_run_of_wire(ls: Seq<Seq<u8>>)
    requires
        encodable(ls),
    ensures
        split_run(labels_wire(ls)) == ls,
    decreases ls.len(),
{
    if ls.len() == 0 {
        assert(labels_wire(ls) =~= Seq::<u8>::empty());
        assert(split_run(labels_wire(ls)) =~= ls);
    } else {
        let l0 = ls[0];
        let rest = ls.drop_first();
        let run = labels_wire(ls);
        let len = l0.len() as int;
        assert(run == label_wire(l0) + labels_wire(rest));
        assert(run[0] == l0.len() as u8);
        assert(run.len() == 1 + len + labels_wire(rest).len());
        assert forall|i: int| 0 <= i < rest.len() implies 1 <= #[trigger] rest[i].len() <= 63 by {
            assert(rest[i] == ls[i + 1]);
        }
        lemma_split_run_of_wire(rest);
        assert(run.subrange(1, 1 + len) =~= l0);
        assert(run.subrange(1 + len, run.len() as int) =~= labels_wire(rest));
        assert(split_run(run) == seq![l0] + split_run(labels_wire(rest)));
        assert(seq![l0] + rest =~= ls);
    }
}

/// Parsing at an exact uncompressed encoding, with `cnt` labels already
/// taken, yields precisely the encoded labels and stops after the
/// terminator.
pub(crate) proof fn lemma_parse_name_rec_exact(buf: Seq<u8>, pos: int, ls: Seq<Seq<u8>>, cnt: int)
    requires
        encodable(ls),
        0 <= cnt,
        cnt + ls.len() <= 30,
        0 <= pos,
        pos + name_wire(ls).len() <= buf.len(),
        buf.subrange(pos, pos + name_wire(ls).len()) == name_wire(ls),
    ensures
        parse_name_rec(buf, pos, cnt) == Ok::<(Seq<Seq<u8>>, int), DnsError>(
            (ls, pos + name_wire(ls).len()),
        ),
    decreases ls.len(),
{
    let w = name_wire(ls);
    assert(w.len() == labels_wire(ls).len() + 1);
    if ls.len() == 0 {
        assert(labels_wire(ls) =~= Seq::<u8>::empty());
        assert(w =~= seq![0u8]);
        assert(buf[pos] == buf.subrange(pos, pos + 1)[0]);
        assert(buf[pos] == 0);
        assert(Seq::<Seq<u8>>::empty() =~= ls);
    } else {
        let l0 = ls[0];
        let rest = ls.drop_first();
        let len = l0.len() as int;
        assert(1 <= len <= 63);
        assert forall|i: int| 0 <= i < rest.len() implies 1 <= #[trigger] rest[i].len() <= 63 by {
            assert(rest[i] == ls[i + 1]);
        }
        assert(labels_wire(ls) == label_wire(l0) + labels_wire(rest));
        assert(w =~= label_wire(l0) + name_wire(rest));
        assert(w.len() == 1 + len + name_wire(rest).len());
        let b = buf[pos];
        assert(b == buf.subrange(pos, pos + w.len() as int)[0]);
        assert(b == w[0]);
        assert(w[0] == l0.len() as u8);
        assert(b != 0);
        assert(b <= 63 ==> b & 0xc0 != 0xc0) by (bit_vector);
        assert(avail(buf, pos + 1) >= len);
        assert forall|k: int| 0 <= k < len implies #[trigger] buf.subrange(pos + 1, pos + 1 + len)[k]
            == l0[k] by {
            assert(buf.subrange(pos + 1, pos + 1 + len)[k] == buf[pos + 1 + k]);
            assert(buf[pos + 1 + k] == buf.subrange(pos, pos + w.len() as int)[1 + k]);
            assert(w[1 + k] == label_wire(l0)[1 + k]);
        }
        assert(buf.subrange(pos + 1, pos + 1 + len) =~= l0);
        let pos2 = pos + 1 + len;
        assert forall|k: int|
            0 <= k < name_wire(rest).len() implies #[trigger] buf.subrange(
            pos2,
            pos2 + name_wire(rest).len(),
        )[k] == name_wire(rest)[k] by {
            assert(buf.subrange(pos2, pos2 + name_wire(rest).len())[k] == buf[pos2 + k]);
            assert(buf[pos2 + k] == buf.subrange(pos, pos + w.len() as int)[1 + len + k]);
            assert(w[1 + len + k] == name_wire(rest)[k]);
        }
        assert(buf.subrange(pos2, pos2 + name_wire(rest).len()) =~= name_wire(rest));
        lemma_parse_name_rec_exact(buf, pos2, rest, cnt + 1);
        assert(seq![l0] + rest =~= ls);
        assert(parse_name_rec(buf, pos, cnt) == Ok::<(Seq<Seq<u8>>, int), DnsError>(
            (ls, pos + w.len()),
        ));
    }
}

/// Parsing a strict prefix of an uncompressed encoding always fails for
/// want of data.
pub(crate) proof fn lemma_parse_name_rec_prefix(buf: Seq<u8>, pos: int, ls: Seq<Seq<u8>>, cnt: int)
    requires
        encodable(ls),
        0 <= cnt,
        cnt + ls.len() <= 30,
        0 <= pos <= buf.len(),
        buf.len() < pos + name_wire(ls).len(),
        buf.subrange(pos, buf.len() as int) == name_wire(ls).take(buf.len() - pos),
    ensures
        short_read(parse_name_rec(buf, pos, cnt)),
    decreases ls.len(),
{
    let w = name_wire(ls);
    assert(w.len() == labels_wire(ls).len() + 1);
    if pos == buf.len() {
    } else if ls.len() == 0 {
        assert(w.len() == 1);
        assert(false);
    } else {
        let l0 = ls[0];
        let rest = ls.drop_first();
        let len = l0.len() as int;
        assert(1 <= len <= 63);
        assert forall|i: int| 0 <= i < rest.len() implies 1 <= #[trigger] rest[i].len() <= 63 by {
            assert(rest[i] == ls[i + 1]);
        }
        assert(labels_wire(ls) == label_wire(l0) + labels_wire(rest));
        assert(w =~= label_wire(l0) + name_wire(rest));
        assert(w.len() == 1 + len + name_wire(rest).len());
        let b = buf[pos];
        assert(b == buf.subrange(pos, buf.len() as int)[0]);
        assert(b == w[0]);
        assert(w[0] == l0.len() as u8);
        assert(b != 0);
        assert(b <= 63 ==> b & 0xc0 != 0xc0) by (bit_vector);
        if avail(buf, pos + 1) < len {
        } else {
            let pos2 = pos + 1 + len;
            assert(pos2 <= buf.len());
            assert(buf.len() < pos2 + name_wire(rest).len());
            assert forall|k: int|
                0 <= k < buf.len() - pos2 implies #[trigger] buf.subrange(pos2, buf.len() as int)[k]
                == name_wire(rest).take(buf.len() - pos2)[k] by {
                assert(buf.subrange(pos2, buf.len() as int)[k] == buf[pos2 + k]);
                assert(buf[pos2 + k] == buf.subrange(pos, buf.len() as int)[1 + len + k]);
                assert(w[1 + len + k] == name_wire(rest)[k]);
            }
            assert(buf.subrange(pos2, buf.len() as int) =~= name_wire(rest).take(buf.len() - pos2));
            lemma_parse_name_rec_prefix(buf, pos2, rest, cnt + 1);
        }
    }
}

/// Law: a name made of well-formed labels decodes from its own uncompressed
/// encoding unchanged.
pub proof fn lemma_name_round_trip(ls: Seq<Seq<u8>>)
    requires
        encodable(ls),
        ls.len() <= 30,
    ensures
        parse_name(name_wire(ls), 0) == Ok::<(Seq<Seq<u8>>, int), DnsError>(
            (ls, name_wire(ls).len() as int),
        ),
{
    let w = name_wire(ls);
    assert(w.subrange(0, w.len() as int) =~= w);
    lemma_parse_name_rec_exact(w, 0, ls, 0);
}

/// Law: a name reached through a compression pointer decodes to the same
/// label sequence as the equivalent fully uncompressed encoding of that
/// name found at the pointer's offset.
pub proof fn lemma_compressed_name_round_trip(buf: Seq<u8>, pos: int, off: int, ls: Seq<Seq<u8>>)
    requires
        encodable(ls),
        no_zero_bytes(ls),
        ls.len() <= 30,
        0 <= pos,
        pos + 2 <= buf.len(),
        buf[pos] & 0xc0 == 0xc0,
        u16_be(buf[pos] & 0x3f, buf[pos + 1]) as int == off,
        0 <= off,
        off + name_wire(ls).len() <= buf.len(),
        buf.subrange(off, off + name_wire(ls).len()) == name_wire(ls),
    ensures
        parse_name(buf, pos) == Ok::<(Seq<Seq<u8>>, int), DnsError>((ls, pos + 2)),
        parse_name(name_wire(ls), 0) == Ok::<(Seq<Seq<u8>>, int), DnsError>(
            (ls, name_wire(ls).len() as int),
        ),
{
    lemma_name_round_trip(ls);
    let w = name_wire(ls);
    let lw = labels_wire(ls);
    assert(w.len() == lw.len() + 1);
    let b = buf[pos];
    assert(b & 0xc0 == 0xc0 ==> b != 0) by (bit_vector);
    let z = off + lw.len();
    assert forall|j: int| off <= j < z implies buf[j] != 0 by {
        assert(buf[j] == buf.subrange(off, off + w.len() as int)[j - off]);
        assert(w[j - off] == lw[j - off]);
        lemma_labels_wire_nonzero(ls);
    }
    assert(buf[z] == buf.subrange(off, off + w.len() as int)[lw.len() as int]);
    assert(w[lw.len() as int] == 0);
    lemma_first_zero_found(buf, off, z);
    assert(buf.subrange(off, z) =~= lw);
    lemma_split_run_of_wire(ls);
}

/// The wire image of a single label run.
proof fn lemma_labels_wire_singleton(x: Seq<u8>)
    ensures
        labels_wire(seq![x]) == label_wire(x),
{
    assert(seq![x].drop_first() =~= Seq::<Seq<u8>>::empty());
    assert(labels_wire(Seq::<Seq<u8>>::empty()) =~= Seq::<u8>::empty());
    assert(labels_wire(seq![x]) =~= label_wire(x));
}

/// The wire image of concatenated label sequences is the concatenation of
/// their wire images.
proof fn lemma_labels_wire_concat(a: Seq<Seq<u8>>, b: Seq<Seq<u8>>)
    ensures
        labels_wire(a + b) == labels_wire(a) + labels_wire(b),
    decreases a.len(),
{
    if a.len() == 0 {
        assert(a + b =~= b);
        assert(labels_wire(a) =~= Seq::<u8>::empty());
        assert(labels_wire(a + b) =~= labels_wire(a) + labels_wire(b));
    } else {
        assert((a + b).drop_first() =~= a.drop_first() + b);
        lemma_labels_wire_concat(a.drop_first(), b);
        assert(labels_wire(a + b) =~= labels_wire(a) + labels_wire(b));
    }
}

/// Extending a label sequence by one label appends that label's wire image.
proof fn lemma_labels_wire_snoc(ls: Seq<Seq<u8>>, i: int)
    requires
        0 <= i < ls.len(),
    ensures
        labels_wire(ls.take(i + 1)) == labels_wire(ls.take(i)) + label_wire(ls[i]),
{
    assert(ls.take(i + 1) =~= ls.take(i) + seq![ls[i]]);
    lemma_labels_wire_concat(ls.take(i), seq![ls[i]]);
    lemma_labels_wire_singleton(ls[i]);
}

} // verus!
