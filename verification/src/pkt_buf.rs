//! Framing codec for the wire protocol.
//!
//! A DATA frame is `BE32(id) || BE16(len) || payload`; an ACK frame is
//! `BE32(id)`.  Encoding is stateless; decoding is a streaming buffer that
//! tolerates arbitrary read boundaries, including splits inside a header.

use vstd::prelude::*;

verus! {

/// The four big-endian bytes of a 32-bit identifier.
pub open spec fn spec_be32(id: u32) -> Seq<u8> {
    seq![
        ((id / 0x100_0000) % 0x100) as u8,
        ((id / 0x1_0000) % 0x100) as u8,
        ((id / 0x100) % 0x100) as u8,
        (id % 0x100) as u8,
    ]
}

/// The two big-endian bytes of a 16-bit length.
pub open spec fn spec_be16(n: u16) -> Seq<u8> {
    seq![((n / 0x100) % 0x100) as u8, (n % 0x100) as u8]
}

/// The value read back from four big-endian bytes.
pub open spec fn be32_val(b: Seq<u8>) -> int
    recommends
        b.len() >= 4,
{
    b[0] * 0x100_0000 + b[1] * 0x1_0000 + b[2] * 0x100 + b[3]
}

/// The value read back from two big-endian bytes.
pub open spec fn be16_val(b: Seq<u8>) -> int
    recommends
        b.len() >= 2,
{
    b[0] * 0x100 + b[1]
}

/// A complete DATA frame for `id` and `payload` (whose length must fit the
/// 16-bit length field).
pub open spec fn spec_data_frame(id: u32, payload: Seq<u8>) -> Seq<u8>
    recommends
        payload.len() <= 0xFFFF,
{
    spec_be32(id) + spec_be16(payload.len() as u16) + payload
}

/// Reading back the four bytes of an encoded identifier gives the
/// identifier.
pub proof fn lemma_be32_round(id: u32)
    ensures
        be32_val(spec_be32(id)) == id,
{
    assert(((id / 0x100_0000) % 0x100) * 0x100_0000 + ((id / 0x1_0000) % 0x100) * 0x1_0000 + ((id
        / 0x100) % 0x100) * 0x100 + (id % 0x100) == id) by (bit_vector);
}

/// Reading back the two bytes of an encoded length gives the length.
pub proof fn lemma_be16_round(n: u16)
    ensures
        be16_val(spec_be16(n)) == n,
{
    assert(((n / 0x100) % 0x100) * 0x100 + (n % 0x100) == n) by (bit_vector);
}

/// Encodes a DATA frame: identifier, length, then the payload itself.
pub fn to_pkt(id: u32, data: Vec<u8>) -> (r: Vec<u8>)
    requires
        data@.len() <= 0xFFFF,
    ensures
        r@ == spec_data_frame(id, data@),
{
    let n: u16 = data.len() as u16;
    let mut buf: Vec<u8> = Vec::new();
    buf.push(((id / 0x100_0000) % 0x100) as u8);
    buf.push(((id / 0x1_0000) % 0x100) as u8);
    buf.push(((id / 0x100) % 0x100) as u8);
    buf.push((id % 0x100) as u8);
    buf.push(((n / 0x100) % 0x100) as u8);
    buf.push((n % 0x100) as u8);
    let mut d = data;
    buf.append(&mut d);
    proof {
        assert(buf@ =~= spec_data_frame(id, data@));
    }
    buf
}

/// Encodes an ACK frame: the four big-endian bytes of `id`.
pub fn to_ack_pkt(id: u32) -> (r: Vec<u8>)
    ensures
        r@ == spec_be32(id),
{
    let mut buf: Vec<u8> = Vec::new();
    buf.push(((id / 0x100_0000) % 0x100) as u8);
    buf.push(((id / 0x1_0000) % 0x100) as u8);
    buf.push(((id / 0x100) % 0x100) as u8);
    buf.push((id % 0x100) as u8);
    proof {
        assert(buf@ =~= spec_be32(id));
    }
    buf
}

/// Decodes the four-byte resume cursor exchanged at the start of each
/// stream.
pub fn decode_cursor(b: &[u8]) -> (r: u32)
    requires
        b@.len() == 4,
    ensures
        r as int == be32_val(b@),
{
    b[0] as u32 * 0x100_0000 + b[1] as u32 * 0x1_0000 + b[2] as u32 * 0x100 + b[3] as u32
}

/// Whether the buffered bytes begin with a complete DATA frame: a full
/// header, and as many payload bytes as the header announces.
pub open spec fn data_frame_ready(b: Seq<u8>) -> bool {
    b.len() >= 6 && b.len() >= 6 + be16_val(b.subrange(4, 6))
}

/// The identifier of the frame at the front of the buffer.
pub open spec fn frame_id(b: Seq<u8>) -> int {
    be32_val(b.subrange(0, 4))
}

/// The payload length announced by the frame at the front of the buffer.
pub open spec fn frame_len(b: Seq<u8>) -> int {
    be16_val(b.subrange(4, 6))
}

/// The payload of the frame at the front of the buffer.
pub open spec fn frame_payload(b: Seq<u8>) -> Seq<u8> {
    b.subrange(6, 6 + frame_len(b))
}

/// What stays buffered once the frame at the front is consumed.
pub open spec fn frame_rest(b: Seq<u8>) -> Seq<u8> {
    b.skip(6 + frame_len(b))
}

/// Streaming decoder for DATA frames.  Reads are pushed in as they arrive;
/// `next` yields one decoded frame whenever a complete one is buffered.
pub struct DataBuf {
    /// The bytes received and not yet decoded, oldest first.
    pub buf: Vec<u8>,
}

impl View for DataBuf {
    type V = Seq<u8>;

    open spec fn view(&self) -> Seq<u8> {
        self.buf@
    }
}

impl DataBuf {
    /// An empty decoder.
    pub fn new() -> (r: DataBuf)
        ensures
            r@ == Seq::<u8>::empty(),
    {
        DataBuf { buf: Vec::new() }
    }

    /// Queues newly read bytes after whatever is already buffered.
    pub fn push(&mut self, pkt: Vec<u8>)
        ensures
            final(self)@ == old(self)@ + pkt@,
    {
        let mut p = pkt;
        self.buf.append(&mut p);
    }

    /// Decodes the frame at the front of the buffer, if it is complete,
    /// and keeps the remaining bytes for later calls.
    pub fn next(&mut self) -> (r: Option<(u32, Vec<u8>)>)
        ensures
            data_frame_ready(old(self)@) ==> {
                &&& r is Some
                &&& r.unwrap().0 as int == frame_id(old(self)@)
                &&& r.unwrap().1@ == frame_payload(old(self)@)
                &&& final(self)@ == frame_rest(old(self)@)
            },
            !data_frame_ready(old(self)@) ==> {
                &&& r is None
                &&& final(self)@ == old(self)@
            },
    {
        if self.buf.len() < 6 {
            return None;
        }
        let id: u32 = self.buf[0] as u32 * 0x100_0000 + self.buf[1] as u32 * 0x1_0000
            + self.buf[2] as u32 * 0x100 + self.buf[3] as u32;
        let len: usize = self.buf[4] as usize * 0x100 + self.buf[5] as usize;
        proof {
            assert(old(self)@.subrange(0, 4) =~= seq![
                old(self)@[0],
                old(self)@[1],
                old(self)@[2],
                old(self)@[3],
            ]);
            assert(old(self)@.subrange(4, 6) =~= seq![old(self)@[4], old(self)@[5]]);
            assert(id as int == frame_id(old(self)@));
            assert(len as int == frame_len(old(self)@));
        }
        if self.buf.len() < 6 + len {
            return None;
        }
        let mut payload = self.buf.split_off(6);
        let rest = payload.split_off(len);
        self.buf = rest;
        proof {
            assert(payload@ =~= frame_payload(old(self)@));
            assert(self@ =~= frame_rest(old(self)@));
        }
        Some((id, payload))
    }
}

/// Whether the buffered bytes hold a complete ACK frame.
pub open spec fn ack_ready(b: Seq<u8>) -> bool {
    b.len() >= 4
}

/// The identifier of the ACK frame at the front of the buffer.
pub open spec fn ack_id(b: Seq<u8>) -> int {
    be32_val(b.subrange(0, 4))
}

/// What stays buffered once the ACK frame at the front is consumed.
pub open spec fn ack_rest(b: Seq<u8>) -> Seq<u8> {
    b.skip(4)
}

/// Streaming decoder for ACK frames: one identifier per four buffered
/// bytes, a partial identifier stays buffered.
pub struct AckBuf {
    /// The bytes received and not yet decoded, oldest first.
    pub buf: Vec<u8>,
}

impl View for AckBuf {
    type V = Seq<u8>;

    open spec fn view(&self) -> Seq<u8> {
        self.buf@
    }
}

impl AckBuf {
    /// An empty decoder.
    pub fn new() -> (r: AckBuf)
        ensures
            r@ == Seq::<u8>::empty(),
    {
        AckBuf { buf: Vec::new() }
    }

    /// Queues newly read bytes after whatever is already buffered.
    pub fn push(&mut self, pkt: Vec<u8>)
        ensures
            final(self)@ == old(self)@ + pkt@,
    {
        let mut p = pkt;
        self.buf.append(&mut p);
    }

    /// Decodes the acknowledged identifier at the front of the buffer, if
    /// four bytes are there, and keeps the remaining bytes.
    pub fn next(&mut self) -> (r: Option<u32>)
        ensures
            ack_ready(old(self)@) ==> {
                &&& r is Some
                &&& r.unwrap() as int == ack_id(old(self)@)
                &&& final(self)@ == ack_rest(old(self)@)
            },
            !ack_ready(old(self)@) ==> {
                &&& r is None
                &&& final(self)@ == old(self)@
            },
    {
        if self.buf.len() < 4 {
            return None;
        }
        let id: u32 = self.buf[0] as u32 * 0x100_0000 + self.buf[1] as u32 * 0x1_0000
            + self.buf[2] as u32 * 0x100 + self.buf[3] as u32;
        let rest = self.buf.split_off(4);
        self.buf = rest;
        proof {
            assert(old(self)@.subrange(0, 4) =~= seq![
                old(self)@[0],
                old(self)@[1],
                old(self)@[2],
                old(self)@[3],
            ]);
            assert(id as int == ack_id(old(self)@));
            assert(self@ =~= ack_rest(old(self)@));
        }
        Some(id)
    }
}

/// Round trip for DATA frames: an encoded frame followed by any residue
/// decodes to exactly the encoded identifier and payload, with the residue
/// left buffered.  The decoder's buffer is a plain concatenation of its
/// inputs (`push` appends), so how the bytes were split across reads
/// cannot matter.
pub proof fn lemma_data_round_trip(id: u32, payload: Seq<u8>, rest: Seq<u8>)
    requires
        payload.len() <= 0xFFFF,
    ensures
        data_frame_ready(spec_data_frame(id, payload) + rest),
        frame_id(spec_data_frame(id, payload) + rest) == id,
        frame_payload(spec_data_frame(id, payload) + rest) == payload,
        frame_rest(spec_data_frame(id, payload) + rest) == rest,
{
    let b = spec_data_frame(id, payload) + rest;
    assert(b.subrange(0, 4) =~= spec_be32(id));
    assert(b.subrange(4, 6) =~= spec_be16(payload.len() as u16));
    lemma_be32_round(id);
    lemma_be16_round(payload.len() as u16);
    assert(frame_len(b) == payload.len());
    assert(b.subrange(6, 6 + payload.len() as int) =~= payload);
    assert(b.skip(6 + payload.len() as int) =~= rest);
}

/// Round trip for ACK frames: an encoded acknowledgement followed by any
/// residue decodes to the encoded identifier, with the residue left
/// buffered.
pub proof fn lemma_ack_round_trip(id: u32, rest: Seq<u8>)
    ensures
        ack_ready(spec_be32(id) + rest),
        ack_id(spec_be32(id) + rest) == id,
        ack_rest(spec_be32(id) + rest) == rest,
{
    let b = spec_be32(id) + rest;
    assert(b.subrange(0, 4) =~= spec_be32(id));
    lemma_be32_round(id);
    assert(b.skip(4) =~= rest);
}

} // verus!
