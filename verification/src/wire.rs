use vstd::prelude::*;

use crate::error::DnsError;

verus! {

/// How many bytes of `buf` remain at or after `pos`.
pub open spec fn avail(buf: Seq<u8>, pos: int) -> int {
    if pos <= buf.len() {
        buf.len() - pos
    } else {
        0
    }
}

/// The two big-endian bytes of a 16-bit value.
pub open spec fn be16(x: u16) -> Seq<u8> {
    seq![((x >> 8) & 0xff) as u8, (x & 0xff) as u8]
}

/// The four big-endian bytes of a 32-bit value.
pub open spec fn be32(x: u32) -> Seq<u8> {
    seq![
        ((x >> 24) & 0xff) as u8,
        ((x >> 16) & 0xff) as u8,
        ((x >> 8) & 0xff) as u8,
        (x & 0xff) as u8,
    ]
}

/// The 16-bit value whose big-endian bytes are `b0`, `b1`.
pub open spec fn u16_be(b0: u8, b1: u8) -> u16 {
    (b0 as u16) << 8 | (b1 as u16)
}

/// The 32-bit value whose big-endian bytes are `b0` .. `b3`.
pub open spec fn u32_be(b0: u8, b1: u8, b2: u8, b3: u8) -> u32 {
    (b0 as u32) << 24 | (b1 as u32) << 16 | (b2 as u32) << 8 | (b3 as u32)
}

/// Decoding a big-endian 16-bit field at `pos`.
pub open spec fn parse_u16(buf: Seq<u8>, pos: int) -> Result<(u16, int), DnsError> {
    if avail(buf, pos) < 2 {
        Err(DnsError::NotEnoughData { requested: 2, available: avail(buf, pos) as usize })
    } else {
        Ok((u16_be(buf[pos], buf[pos + 1]), pos + 2))
    }
}

/// Decoding a big-endian 32-bit field at `pos`.
pub open spec fn parse_u32(buf: Seq<u8>, pos: int) -> Result<(u32, int), DnsError> {
    if avail(buf, pos) < 4 {
        Err(DnsError::NotEnoughData { requested: 4, available: avail(buf, pos) as usize })
    } else {
        Ok((u32_be(buf[pos], buf[pos + 1], buf[pos + 2], buf[pos + 3]), pos + 4))
    }
}

/// Reading the two big-endian bytes of a value gives the value back.
pub proof fn lemma_be16_roundtrip(x: u16)
    ensures
        u16_be(be16(x)[0], be16(x)[1]) == x,
{
    assert(((x >> 8) & 0xff) < 256 && (x & 0xff) < 256) by (bit_vector);
    assert((((x >> 8) & 0xff) as u8 as u16) << 8 | ((x & 0xff) as u8 as u16) == x)
        by (bit_vector);
}

/// Reading the four big-endian bytes of a value gives the value back.
pub proof fn lemma_be32_roundtrip(x: u32)
    ensures
        u32_be(be32(x)[0], be32(x)[1], be32(x)[2], be32(x)[3]) == x,
{
    assert(((x >> 24) & 0xff) < 256 && ((x >> 16) & 0xff) < 256 && ((x >> 8) & 0xff) < 256 && (x
        & 0xff) < 256) by (bit_vector);
    assert((((x >> 24) & 0xff) as u8 as u32) << 24 | (((x >> 16) & 0xff) as u8 as u32) << 16 | (((x
        >> 8) & 0xff) as u8 as u32) << 8 | ((x & 0xff) as u8 as u32) == x) by (bit_vector);
}

/// Appends the two big-endian bytes of `x` to `out`.
pub fn write_u16(out: &mut Vec<u8>, x: u16)
    ensures
        final(out)@ == old(out)@ + be16(x),
{
    proof {
        assert((x >> 8) & 0xff < 256 && x & 0xff < 256) by (bit_vector);
    }
    out.push(((x >> 8) & 0xff) as u8);
    out.push((x & 0xff) as u8);
    assert(out@ =~= old(out)@ + be16(x));
}

/// Appends the four big-endian bytes of `x` to `out`.
pub fn write_u32(out: &mut Vec<u8>, x: u32)
    ensures
        final(out)@ == old(out)@ + be32(x),
{
    proof {
        assert((x >> 24) & 0xff < 256 && (x >> 16) & 0xff < 256 && (x >> 8) & 0xff < 256 && x & 0xff
            < 256) by (bit_vector);
    }
    out.push(((x >> 24) & 0xff) as u8);
    out.push(((x >> 16) & 0xff) as u8);
    out.push(((x >> 8) & 0xff) as u8);
    out.push((x & 0xff) as u8);
    assert(out@ =~= old(out)@ + be32(x));
}

/// Reads a big-endian 16-bit value at `pos`, as the cursor's `get_u16` would.
pub fn read_u16(buf: &[u8], pos: usize) -> (r: Result<(u16, usize), DnsError>)
    ensures
        match r {
            Ok((x, end)) => {
                &&& parse_u16(buf@, pos as int) == Ok::<(u16, int), DnsError>((x, end as int))
                &&& end == pos + 2 <= buf@.len()
            },
            Err(e) => parse_u16(buf@, pos as int) == Err::<(u16, int), DnsError>(e),
        },
{
    if pos < buf.len() && buf.len() - pos >= 2 {
        let b0 = buf[pos];
        let b1 = buf[pos + 1];
        Ok((((b0 as u16) << 8 | (b1 as u16)), pos + 2))
    } else {
        let available = if pos <= buf.len() {
            buf.len() - pos
        } else {
            0
        };
        Err(DnsError::NotEnoughData { requested: 2, available })
    }
}

/// Reads a big-endian 32-bit value at `pos`, as the cursor's `get_u32` would.
pub fn read_u32(buf: &[u8], pos: usize) -> (r: Result<(u32, usize), DnsError>)
    ensures
        match r {
            Ok((x, end)) => {
                &&& parse_u32(buf@, pos as int) == Ok::<(u32, int), DnsError>((x, end as int))
                &&& end == pos + 4 <= buf@.len()
            },
            Err(e) => parse_u32(buf@, pos as int) == Err::<(u32, int), DnsError>(e),
        },
{
    if pos < buf.len() && buf.len() - pos >= 4 {
        let b0 = buf[pos];
        let b1 = buf[pos + 1];
        let b2 = buf[pos + 2];
        let b3 = buf[pos + 3];
        Ok(((b0 as u32) << 24 | (b1 as u32) << 16 | (b2 as u32) << 8 | (b3 as u32), pos + 4))
    } else {
        let available = if pos <= buf.len() {
            buf.len() - pos
        } else {
            0
        };
        Err(DnsError::NotEnoughData { requested: 4, available })
    }
}

/// Copies `buf[from..to]` into a fresh vector.
pub fn bytes_range(buf: &[u8], from: usize, to: usize) -> (r: Vec<u8>)
    requires
        from <= to <= buf@.len(),
    ensures
        r@ == buf@.subrange(from as int, to as int),
{
    let mut out: Vec<u8> = Vec::new();
    let mut i = from;
    while i < to
        invariant
            from <= i <= to <= buf@.len(),
            out@ == buf@.subrange(from as int, i as int),
        decreases to - i,
    {
        out.push(buf[i]);
        assert(out@ =~= buf@.subrange(from as int, i + 1));
        i = i + 1;
    }
    out
}

} // verus!
