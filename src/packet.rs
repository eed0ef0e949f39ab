//! Fixed-capacity datagram buffers and the wire encodings of the core
//! protocol's control packets.
use vstd::prelude::*;

use crate::clock::Tick;

verus! {

broadcast use vstd::array::group_array_axioms;

/// Largest datagram the protocol sends or accepts.
pub const MAX_PACKET_SIZE: usize = 520;

/// Largest payload that fits in one reliable datagram.
pub const MAX_RELIABLE_PAYLOAD: usize = 514;

/// Little-endian bytes of a 16-bit value.
pub open spec fn le16(v: u16) -> Seq<u8> {
    seq![(v % 0x100) as u8, (v / 0x100) as u8]
}

/// Little-endian bytes of a 32-bit value.
pub open spec fn le32(v: u32) -> Seq<u8> {
    seq![
        (v % 0x100) as u8,
        (v / 0x100 % 0x100) as u8,
        (v / 0x1_0000 % 0x100) as u8,
        (v / 0x100_0000) as u8,
    ]
}

/// The two's-complement bit pattern of an 8-bit signed value.
pub open spec fn bits_i8(v: i8) -> u8 {
    if v < 0 {
        (v + 0x100) as u8
    } else {
        v as u8
    }
}

/// The two's-complement bit pattern of a 16-bit signed value.
pub open spec fn bits_i16(v: i16) -> u16 {
    if v < 0 {
        (v + 0x1_0000) as u16
    } else {
        v as u16
    }
}

/// The two's-complement bit pattern of a 32-bit signed value.
pub open spec fn bits_i32(v: i32) -> u32 {
    if v < 0 {
        (v + 0x1_0000_0000) as u32
    } else {
        v as u32
    }
}

/// A reliable datagram: `0x00 0x03`, the id, then the payload.
pub open spec fn reliable_frame(id: u32, payload: Seq<u8>) -> Seq<u8> {
    seq![0x00u8, 0x03u8] + le32(id) + payload
}

/// The acknowledgement of reliable message `id`.
pub open spec fn ack_frame(id: u32) -> Seq<u8> {
    seq![0x00u8, 0x04u8] + le32(id)
}

/// The answer to a time-sync request: the client's stamp, then the server's.
pub open spec fn sync_response_frame(client: u32, server: u32) -> Seq<u8> {
    seq![0x00u8, 0x06u8] + le32(client) + le32(server)
}

/// The little-endian bytes of `v`.
pub fn u16_le_bytes(v: u16) -> (r: [u8; 2])
    ensures
        r@ == le16(v),
{
    let r = [(v % 0x100) as u8, (v / 0x100) as u8];
    assert(r@ =~= le16(v));
    r
}

/// The little-endian bytes of `v`.
pub fn u32_le_bytes(v: u32) -> (r: [u8; 4])
    ensures
        r@ == le32(v),
{
    let r = [
        (v % 0x100) as u8,
        (v / 0x100 % 0x100) as u8,
        (v / 0x1_0000 % 0x100) as u8,
        (v / 0x100_0000) as u8,
    ];
    assert(r@ =~= le32(v));
    r
}

/// The 32-bit value stored little-endian in `buf[at..at + 4]`.
pub fn read_u32_le(buf: &[u8], at: usize) -> (r: u32)
    requires
        at + 4 <= buf@.len(),
    ensures
        le32(r) == buf@.subrange(at as int, at + 4),
{
    let b0 = buf[at] as u32;
    let b1 = buf[at + 1] as u32;
    let b2 = buf[at + 2] as u32;
    let b3 = buf[at + 3] as u32;
    let r = b0 | (b1 << 8u32) | (b2 << 16u32) | (b3 << 24u32);
    assert(r % 0x100 == b0 && r / 0x100 % 0x100 == b1 && r / 0x1_0000 % 0x100 == b2 && r
        / 0x100_0000 == b3) by (bit_vector)
        requires
            b0 < 0x100 && b1 < 0x100 && b2 < 0x100 && b3 < 0x100,
            r == b0 | (b1 << 8u32) | (b2 << 16u32) | (b3 << 24u32),
    ;
    assert(le32(r) =~= buf@.subrange(at as int, at + 4));
    r
}

/// A datagram under construction: a fixed buffer and the length in use.
#[derive(Copy, Clone)]
pub struct Packet {
    pub data: [u8; MAX_PACKET_SIZE],
    pub size: usize,
}

impl View for Packet {
    type V = Seq<u8>;

    /// The bytes in use; what lies beyond `size` has no meaning.
    open spec fn view(&self) -> Seq<u8> {
        self.data@.subrange(0, self.size as int)
    }
}

impl Packet {
    /// The length in use fits the buffer.
    pub open spec fn wf(&self) -> bool {
        self.size <= MAX_PACKET_SIZE
    }

    /// An empty packet.
    pub fn empty() -> (r: Packet)
        ensures
            r.wf(),
            r.size == 0,
            r@ == Seq::<u8>::empty(),
    {
        let r = Packet { data: [0u8; MAX_PACKET_SIZE], size: 0 };
        assert(r@ =~= Seq::<u8>::empty());
        r
    }

    /// A packet holding a copy of `message`.
    pub fn new(message: &[u8]) -> (r: Packet)
        requires
            message@.len() <= MAX_PACKET_SIZE,
        ensures
            r.wf(),
            r.size == message@.len(),
            r@ == message@,
    {
        let mut r = Packet::empty();
        r.append(message);
        assert(r@ =~= message@);
        r
    }

    /// `message` framed as reliable message `id`.
    pub fn new_reliable(id: u32, message: &[u8]) -> (r: Packet)
        requires
            message@.len() <= MAX_RELIABLE_PAYLOAD,
        ensures
            r.wf(),
            r.size == message@.len() + 6,
            r@ == reliable_frame(id, message@),
    {
        let mut r = Packet::empty();
        r.write_u8(0x00);
        r.write_u8(0x03);
        r.write_u32(id);
        r.append(message);
        assert(r@ =~= reliable_frame(id, message@));
        r
    }

    /// The acknowledgement of reliable message `id`.
    pub fn new_reliable_ack(id: u32) -> (r: Packet)
        ensures
            r.wf(),
            r.size == 6,
            r@ == ack_frame(id),
    {
        let mut r = Packet::empty();
        r.write_u8(0x00);
        r.write_u8(0x04);
        r.write_u32(id);
        assert(r@ =~= ack_frame(id));
        r
    }

    /// The answer to a time-sync request stamped `recv_timestamp`, carrying
    /// the server's clock as `local_timestamp`.
    pub fn new_sync_response_at(recv_timestamp: Tick, local_timestamp: Tick) -> (r: Packet)
        ensures
            r.wf(),
            r.size == 10,
            r@ == sync_response_frame(recv_timestamp@ as u32, local_timestamp@ as u32),
    {
        let mut r = Packet::empty();
        r.write_u8(0x00);
        r.write_u8(0x06);
        r.write_u32(recv_timestamp.value());
        r.write_u32(local_timestamp.value());
        assert(r@ =~= sync_response_frame(recv_timestamp@ as u32, local_timestamp@ as u32));
        r
    }

    /// The answer to a time-sync request stamped `recv_timestamp`, carrying
    /// the server's clock now.
    pub fn new_sync_response(recv_timestamp: Tick) -> (r: Packet)
        ensures
            r.wf(),
            r.size == 10,
            exists|t: Tick| r@ == sync_response_frame(recv_timestamp@ as u32, t@ as u32),
    {
        let now = Tick::now();
        Packet::new_sync_response_at(recv_timestamp, now)
    }

    /// Appends `bytes` after the bytes in use.
    pub fn append(&mut self, bytes: &[u8])
        requires
            old(self).wf(),
            old(self).size + bytes@.len() <= MAX_PACKET_SIZE,
        ensures
            final(self).wf(),
            final(self).size == old(self).size + bytes@.len(),
            final(self)@ == old(self)@ + bytes@,
    {
        let ghost start = self@;
        let mut i: usize = 0;
        while i < bytes.len()
            invariant
                self.wf(),
                i <= bytes@.len(),
                self.size == old(self).size + i,
                old(self).size + bytes@.len() <= MAX_PACKET_SIZE,
                start == old(self)@,
                self@ == start + bytes@.subrange(0, i as int),
            decreases bytes@.len() - i,
        {
            self.write_u8(bytes[i]);
            assert(bytes@.subrange(0, i + 1) =~= bytes@.subrange(0, i as int).push(bytes@[i as int]));
            i = i + 1;
        }
        assert(bytes@.subrange(0, i as int) =~= bytes@);
    }

    /// `self` followed by the byte `val`.
    pub fn concat_u8(self, val: u8) -> (r: Packet)
        requires
            self.wf(),
            self.size + 1 <= MAX_PACKET_SIZE,
        ensures
            r.wf(),
            r.size == self.size + 1,
            r@ == self@.push(val),
    {
        let mut r = self;
        r.write_u8(val);
        r
    }

    /// `self` followed by `val`, little-endian.
    pub fn concat_u16(self, val: u16) -> (r: Packet)
        requires
            self.wf(),
            self.size + 2 <= MAX_PACKET_SIZE,
        ensures
            r.wf(),
            r.size == self.size + 2,
            r@ == self@ + le16(val),
    {
        let mut r = self;
        r.write_u16(val);
        r
    }

    /// `self` followed by `val`, little-endian.
    pub fn concat_u32(self, val: u32) -> (r: Packet)
        requires
            self.wf(),
            self.size + 4 <= MAX_PACKET_SIZE,
        ensures
            r.wf(),
            r.size == self.size + 4,
            r@ == self@ + le32(val),
    {
        let mut r = self;
        r.write_u32(val);
        r
    }

    /// `self` followed by the bit pattern of `val`.
    pub fn concat_i8(self, val: i8) -> (r: Packet)
        requires
            self.wf(),
            self.size + 1 <= MAX_PACKET_SIZE,
        ensures
            r.wf(),
            r.size == self.size + 1,
            r@ == self@.push(bits_i8(val)),
    {
        let mut r = self;
        r.write_i8(val);
        r
    }

    /// `self` followed by the bit pattern of `val`, little-endian.
    pub fn concat_i16(self, val: i16) -> (r: Packet)
        requires
            self.wf(),
            self.size + 2 <= MAX_PACKET_SIZE,
        ensures
            r.wf(),
            r.size == self.size + 2,
            r@ == self@ + le16(bits_i16(val)),
    {
        let mut r = self;
        r.write_i16(val);
        r
    }

    /// `self` followed by the bit pattern of `val`, little-endian.
    pub fn concat_i32(self, val: i32) -> (r: Packet)
        requires
            self.wf(),
            self.size + 4 <= MAX_PACKET_SIZE,
        ensures
            r.wf(),
            r.size == self.size + 4,
            r@ == self@ + le32(bits_i32(val)),
    {
        let mut r = self;
        r.write_i32(val);
        r
    }

    /// Appends the byte `val`.
    pub fn write_u8(&mut self, val: u8)
        requires
            old(self).wf(),
            old(self).size + 1 <= MAX_PACKET_SIZE,
        ensures
            final(self).wf(),
            final(self).size == old(self).size + 1,
            final(self)@ == old(self)@.push(val),
    {
        let ghost before = self.data@;
        let at = self.size;
        self.data[at] = val;
        self.size = at + 1;
        assert(self@ =~= old(self)@.push(val)) by {
            assert(before.subrange(0, at as int) =~= old(self)@);
        }
    }

    /// Appends `val`, little-endian.
    pub fn write_u16(&mut self, val: u16)
        requires
            old(self).wf(),
            old(self).size + 2 <= MAX_PACKET_SIZE,
        ensures
            final(self).wf(),
            final(self).size == old(self).size + 2,
            final(self)@ == old(self)@ + le16(val),
    {
        let b = u16_le_bytes(val);
        self.append(&b);
    }

    /// Appends `val`, little-endian.
    pub fn write_u32(&mut self, val: u32)
        requires
            old(self).wf(),
            old(self).size + 4 <= MAX_PACKET_SIZE,
        ensures
            final(self).wf(),
            final(self).size == old(self).size + 4,
            final(self)@ == old(self)@ + le32(val),
    {
        let b = u32_le_bytes(val);
        self.append(&b);
    }

    /// Appends the bit pattern of `val`.
    pub fn write_i8(&mut self, val: i8)
        requires
            old(self).wf(),
            old(self).size + 1 <= MAX_PACKET_SIZE,
        ensures
            final(self).wf(),
            final(self).size == old(self).size + 1,
            final(self)@ == old(self)@.push(bits_i8(val)),
    {
        let b = val as u8;
        assert(b == bits_i8(val)) by (bit_vector)
            requires
                b == val as u8,
        ;
        self.write_u8(b);
    }

    /// Appends the bit pattern of `val`, little-endian.
    pub fn write_i16(&mut self, val: i16)
        requires
            old(self).wf(),
            old(self).size + 2 <= MAX_PACKET_SIZE,
        ensures
            final(self).wf(),
            final(self).size == old(self).size + 2,
            final(self)@ == old(self)@ + le16(bits_i16(val)),
    {
        let b = val as u16;
        assert(b == bits_i16(val)) by (bit_vector)
            requires
                b == val as u16,
        ;
        self.write_u16(b);
    }

    /// Appends the bit pattern of `val`, little-endian.
    pub fn write_i32(&mut self, val: i32)
        requires
            old(self).wf(),
            old(self).size + 4 <= MAX_PACKET_SIZE,
        ensures
            final(self).wf(),
            final(self).size == old(self).size + 4,
            final(self)@ == old(self)@ + le32(bits_i32(val)),
    {
        let b = val as u32;
        assert(b == bits_i32(val)) by (bit_vector)
            requires
                b == val as u32,
        ;
        self.write_u32(b);
    }

    /// Free space left in the buffer.
    pub fn remaining(&self) -> (r: usize)
        requires
            self.wf(),
        ensures
            r == MAX_PACKET_SIZE - self@.len(),
    {
        MAX_PACKET_SIZE - self.size
    }
}

} // verus!
