//! The eight-byte header in front of every datagram.
//!
//! ```text
//!  0        1        2                 4                              8
//!  ┌────────┬────────┬─────────────────┬──────────────────────────────┐
//!  │  ver   │  kind  │       seq       │          timestamp           │
//!  └────────┴────────┴─────────────────┴──────────────────────────────┘
//! ```
//! Big-endian, network byte order. This is the only place bytes from outside
//! the process are interpreted, so the length check comes before any indexing.

use vstd::prelude::*;

verus! {

/// Bumped when the wire format changes. One byte that stops a future build's
/// packets from being decoded as noise by this one.
pub const VER: u8 = 1;
/// `kind` of a datagram carrying one encoded audio frame.
pub const KIND_AUDIO: u8 = 0;
/// `kind` of a datagram carrying a line of UTF-8 text.
pub const KIND_TEXT: u8 = 1;
/// `kind` of a bare header that says only "still here".
pub const KIND_HEARTBEAT: u8 = 2;
/// Bytes in the header.
pub const HEADER_LEN: usize = 8;
/// A 20 ms Opus frame is 80-120 bytes; this is generous slack and keeps the
/// send buffer small.
pub const MAX_PAYLOAD: usize = 1400;

#[derive(Debug, Clone, Copy, PartialEq, Eq, Structural)]
pub struct Header {
    pub ver: u8,
    pub kind: u8,
    pub seq: u16,
    pub ts: u32,
}

/// The high byte of a 16-bit value.
pub open spec fn hi16(v: u16) -> u8 {
    (v / 256) as u8
}

/// The low byte of a 16-bit value.
pub open spec fn lo16(v: u16) -> u8 {
    (v % 256) as u8
}

/// Byte `k` (0 is the most significant) of a 32-bit value.
pub open spec fn byte32(v: u32, k: int) -> u8 {
    if k == 0 {
        (v / 0x100_0000) as u8
    } else if k == 1 {
        ((v / 0x1_0000) % 256) as u8
    } else if k == 2 {
        ((v / 256) % 256) as u8
    } else {
        (v % 256) as u8
    }
}

/// The eight bytes a header is written as.
pub open spec fn encode_header(h: Header) -> Seq<u8> {
    seq![
        h.ver,
        h.kind,
        hi16(h.seq),
        lo16(h.seq),
        byte32(h.ts, 0),
        byte32(h.ts, 1),
        byte32(h.ts, 2),
        byte32(h.ts, 3),
    ]
}

/// The 16-bit value of two big-endian bytes.
pub open spec fn be16(a: u8, b: u8) -> u16 {
    (a * 256 + b) as u16
}

/// The 32-bit value of four big-endian bytes.
pub open spec fn be32(a: u8, b: u8, c: u8, d: u8) -> u32 {
    (a * 0x100_0000 + b * 0x1_0000 + c * 256 + d) as u32
}

/// What a received datagram's header says: `None` when it is shorter than a
/// header or carries another version.
pub open spec fn spec_parse(b: Seq<u8>) -> Option<Header> {
    if b.len() < HEADER_LEN {
        None
    } else if b[0] != VER {
        None
    } else {
        Some(Header { ver: b[0], kind: b[1], seq: be16(b[2], b[3]), ts: be32(b[4], b[5], b[6], b[7]) })
    }
}

proof fn lemma_u16_bytes(v: u16)
    ensures
        (v >> 8u16) as u8 == hi16(v),
        (v & 0xffu16) as u8 == lo16(v),
        be16(hi16(v), lo16(v)) == v,
{
    assert((v >> 8u16) == v / 256) by (bit_vector);
    assert((v & 0xffu16) == v % 256) by (bit_vector);
}

proof fn lemma_u32_bytes(v: u32)
    ensures
        (v >> 24u32) as u8 == byte32(v, 0),
        ((v >> 16u32) & 0xffu32) as u8 == byte32(v, 1),
        ((v >> 8u32) & 0xffu32) as u8 == byte32(v, 2),
        (v & 0xffu32) as u8 == byte32(v, 3),
        be32(byte32(v, 0), byte32(v, 1), byte32(v, 2), byte32(v, 3)) == v,
{
    assert((v >> 24u32) == v / 0x100_0000) by (bit_vector);
    assert(((v >> 16u32) & 0xffu32) == (v / 0x1_0000) % 256) by (bit_vector);
    assert(((v >> 8u32) & 0xffu32) == (v / 256) % 256) by (bit_vector);
    assert((v & 0xffu32) == v % 256) by (bit_vector);
    assert(v / 0x100_0000 * 0x100_0000 + (v / 0x1_0000) % 256 * 0x1_0000 + (v / 256) % 256 * 256
        + v % 256 == v) by (nonlinear_arith);
}

proof fn lemma_be16(a: u8, b: u8)
    ensures
        (((a as u16) << 8u16) | (b as u16)) == be16(a, b),
        hi16(be16(a, b)) == a,
        lo16(be16(a, b)) == b,
{
    let x: u16 = a as u16;
    let y: u16 = b as u16;
    assert(x < 256 && y < 256 ==> ((x << 8u16) | y) == x * 256 + y) by (bit_vector);
}

proof fn lemma_be32(a: u8, b: u8, c: u8, d: u8)
    ensures
        (((a as u32) << 24u32) | ((b as u32) << 16u32) | ((c as u32) << 8u32) | (d as u32)) == be32(
            a,
            b,
            c,
            d,
        ),
        byte32(be32(a, b, c, d), 0) == a,
        byte32(be32(a, b, c, d), 1) == b,
        byte32(be32(a, b, c, d), 2) == c,
        byte32(be32(a, b, c, d), 3) == d,
{
    let w: u32 = a as u32;
    let x: u32 = b as u32;
    let y: u32 = c as u32;
    let z: u32 = d as u32;
    assert(w < 256 && x < 256 && y < 256 && z < 256 ==> ((w << 24u32) | (x << 16u32) | (y << 8u32)
        | z) == w * 0x100_0000 + x * 0x1_0000 + y * 256 + z) by (bit_vector);
    let v: int = a * 0x100_0000 + b * 0x1_0000 + c * 256 + d;
    assert(v / 0x100_0000 == a && (v / 0x1_0000) % 256 == b && (v / 256) % 256 == c && v % 256
        == d) by (nonlinear_arith)
        requires
            v == a * 0x100_0000 + b * 0x1_0000 + c * 256 + d,
            0 <= a < 256,
            0 <= b < 256,
            0 <= c < 256,
            0 <= d < 256,
    ;
}

impl Header {
    /// Writes the header into the first eight bytes of `buf`, leaving the rest
    /// of it as it was.
    pub fn write(&self, buf: &mut [u8])
        requires
            old(buf)@.len() >= HEADER_LEN,
        ensures
            final(buf)@.len() == old(buf)@.len(),
            final(buf)@.subrange(0, HEADER_LEN as int) == encode_header(*self),
            final(buf)@.subrange(HEADER_LEN as int, final(buf)@.len() as int) == old(buf)@.subrange(
                HEADER_LEN as int,
                old(buf)@.len() as int,
            ),
    {
        proof {
            lemma_u16_bytes(self.seq);
            lemma_u32_bytes(self.ts);
        }
        buf[0] = self.ver;
        buf[1] = self.kind;
        buf[2] = (self.seq >> 8u16) as u8;
        buf[3] = (self.seq & 0xffu16) as u8;
        buf[4] = (self.ts >> 24u32) as u8;
        buf[5] = ((self.ts >> 16u32) & 0xffu32) as u8;
        buf[6] = ((self.ts >> 8u32) & 0xffu32) as u8;
        buf[7] = (self.ts & 0xffu32) as u8;
        assert(buf@.subrange(0, HEADER_LEN as int) =~= encode_header(*self));
        assert(buf@.subrange(HEADER_LEN as int, buf@.len() as int) =~= old(buf)@.subrange(
            HEADER_LEN as int,
            old(buf)@.len() as int,
        ));
    }

    /// `None` for anything too short or from another version. Anyone on the
    /// LAN can send a one-byte datagram, so the length is checked before any
    /// byte is read.
    pub fn parse(buf: &[u8]) -> (r: Option<Header>)
        ensures
            r == spec_parse(buf@),
    {
        if buf.len() < HEADER_LEN {
            return None;
        }
        proof {
            lemma_be16(buf@[2], buf@[3]);
            lemma_be32(buf@[4], buf@[5], buf@[6], buf@[7]);
        }
        let h = Header {
            ver: buf[0],
            kind: buf[1],
            seq: ((buf[2] as u16) << 8u16) | (buf[3] as u16),
            ts: ((buf[4] as u32) << 24u32) | ((buf[5] as u32) << 16u32) | ((buf[6] as u32) << 8u32)
                | (buf[7] as u32),
        };
        if h.ver != VER {
            return None;
        }
        Some(h)
    }
}

/// Writing a header and reading it back gives the same header, for every
/// header of the current version.
pub proof fn lemma_write_then_parse(h: Header, rest: Seq<u8>)
    requires
        h.ver == VER,
    ensures
        spec_parse(encode_header(h) + rest) == Some(h),
{
    lemma_u16_bytes(h.seq);
    lemma_u32_bytes(h.ts);
    let b = encode_header(h) + rest;
    assert(b[0] == h.ver && b[1] == h.kind && b[2] == hi16(h.seq) && b[3] == lo16(h.seq));
    assert(b[4] == byte32(h.ts, 0) && b[5] == byte32(h.ts, 1) && b[6] == byte32(h.ts, 2) && b[7]
        == byte32(h.ts, 3));
}

/// A datagram that parses is, in its first eight bytes, exactly what writing
/// the parsed header produces: nothing in the header is lost or invented.
pub proof fn lemma_parse_then_write(b: Seq<u8>)
    requires
        spec_parse(b) is Some,
    ensures
        encode_header(spec_parse(b)->0) == b.subrange(0, HEADER_LEN as int),
{
    lemma_be16(b[2], b[3]);
    lemma_be32(b[4], b[5], b[6], b[7]);
    assert(encode_header(spec_parse(b)->0) =~= b.subrange(0, HEADER_LEN as int));
}

/// A datagram shorter than a header, or of another version, is refused.
pub proof fn lemma_parse_refuses(b: Seq<u8>)
    ensures
        b.len() < HEADER_LEN ==> spec_parse(b) is None,
        b.len() >= HEADER_LEN && b[0] != VER ==> spec_parse(b) is None,
{
}

} // verus!
