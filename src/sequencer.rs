//! The per-connection reliability engine: ids for outgoing reliable messages,
//! retirement of acknowledged ones, in-order release of received ones, and a
//! windowed sender for payloads larger than one datagram.
use vstd::prelude::*;

use crate::clock::Tick;
use crate::packet::{le32, reliable_frame, Packet, MAX_PACKET_SIZE, MAX_RELIABLE_PAYLOAD};

verus! {

broadcast use vstd::array::group_array_axioms;

/// Header of a large-chunk fragment: `0x00 0x0A` and a 32-bit length.
pub const CHUNK_HEADER_SIZE: usize = 6;

/// Most payload bytes one large-chunk fragment carries.
pub const MAX_CHUNK_PAYLOAD: usize = 514;

/// The id after `id`, wrapping at 2^32.
pub open spec fn next_id(id: u32) -> u32 {
    ((id + 1) % 0x1_0000_0000) as u32
}

/// A large-chunk fragment carrying `part`.
pub open spec fn chunk_frame(part: Seq<u8>) -> Seq<u8> {
    seq![0x00u8, 0x0Au8] + le32(part.len() as u32) + part
}

/// `s` with the element at `i` replaced by the last one and the last one
/// dropped: what `Vec::swap_remove` leaves.
pub open spec fn swap_removed<T>(s: Seq<T>, i: int) -> Seq<T> {
    s.update(i, s.last()).drop_last()
}

/// Some message in `s` has id `id`.
pub open spec fn has_id(s: Seq<ReliableMessage>, id: u32) -> bool {
    exists|i: int| 0 <= i < s.len() && s[i].id == id
}

/// `i` is the first position in `s` of a message with id `id`.
pub open spec fn first_with_id(s: Seq<ReliableMessage>, id: u32, i: int) -> bool {
    &&& 0 <= i < s.len()
    &&& s[i].id == id
    &&& forall|j: int| 0 <= j < i ==> s[j].id != id
}

/// `i` is the first position of `v` in `s`.
pub open spec fn first_pos<T>(s: Seq<T>, v: T, i: int) -> bool {
    &&& 0 <= i < s.len()
    &&& s[i] == v
    &&& forall|j: int| 0 <= j < i ==> s[j] != v
}

proof fn lemma_first_pos_unique<T>(s: Seq<T>, v: T, i: int, k: int)
    requires
        first_pos(s, v, i),
        first_pos(s, v, k),
    ensures
        i == k,
{
    if i < k {
        assert(s[i] != v);
    } else if k < i {
        assert(s[k] != v);
    }
}

/// `after` is `before` with one message appended: id `id`, stamped `ts`,
/// carrying `payload`.
pub open spec fn appended(
    before: Seq<ReliableMessage>,
    after: Seq<ReliableMessage>,
    id: u32,
    ts: Tick,
    payload: Seq<u8>,
) -> bool {
    &&& after.len() == before.len() + 1
    &&& after.drop_last() == before
    &&& after.last().id == id
    &&& after.last().timestamp == ts
    &&& after.last().wf()
    &&& after.last()@ == payload
}

/// A reliable message with its id, its time stamp and its payload.
pub struct ReliableMessage {
    pub id: u32,
    pub timestamp: Tick,
    pub size: usize,
    pub message: [u8; MAX_PACKET_SIZE],
}

impl View for ReliableMessage {
    type V = Seq<u8>;

    /// The payload.
    open spec fn view(&self) -> Seq<u8> {
        self.message@.subrange(0, self.size as int)
    }
}

impl ReliableMessage {
    /// The payload length fits the buffer.
    pub open spec fn wf(&self) -> bool {
        self.size <= MAX_PACKET_SIZE
    }

    /// Message `id` holding a copy of `message`, stamped `timestamp`.
    pub fn new_at(id: u32, message: &[u8], timestamp: Tick) -> (r: ReliableMessage)
        requires
            message@.len() <= MAX_PACKET_SIZE,
        ensures
            r.wf(),
            r.id == id,
            r.timestamp == timestamp,
            r.size == message@.len(),
            r@ == message@,
    {
        let p = Packet::new(message);
        ReliableMessage { id, timestamp, size: p.size, message: p.data }
    }

    /// Message `id` holding a copy of `message`, stamped with the time now.
    pub fn new(id: u32, message: &[u8]) -> (r: ReliableMessage)
        requires
            message@.len() <= MAX_PACKET_SIZE,
        ensures
            r.wf(),
            r.id == id,
            r.size == message@.len(),
            r@ == message@,
    {
        ReliableMessage::new_at(id, message, Tick::now())
    }
}

/// A payload being streamed out as large-chunk fragments, with at most
/// `window` fragments awaiting acknowledgement at a time.
pub struct OutboundChunkedPacket {
    data: Vec<u8>,
    index: usize,
    max_outbound: usize,
    // Ids of the fragments sent and not yet acknowledged.
    outbound_ids: Vec<u32>,
}

impl OutboundChunkedPacket {
    /// The whole payload.
    pub closed spec fn payload(&self) -> Seq<u8> {
        self.data@
    }

    /// How many payload bytes have been sent.
    pub closed spec fn cursor(&self) -> nat {
        self.index as nat
    }

    /// The most fragments that may await acknowledgement.
    pub closed spec fn window(&self) -> nat {
        self.max_outbound as nat
    }

    /// Ids of the fragments that await acknowledgement.
    pub closed spec fn in_flight(&self) -> Seq<u32> {
        self.outbound_ids@
    }

    /// The cursor lies within the payload.
    pub open spec fn wf(&self) -> bool {
        self.cursor() <= self.payload().len()
    }

    /// Every byte was sent and every fragment acknowledged.
    pub open spec fn is_done(&self) -> bool {
        self.cursor() == self.payload().len() && self.in_flight().len() == 0
    }

    /// A transfer of `message` that lets `max_outbound` fragments await
    /// acknowledgement at a time.
    pub fn new(message: &[u8], max_outbound: usize) -> (r: OutboundChunkedPacket)
        ensures
            r.wf(),
            r.payload() == message@,
            r.cursor() == 0,
            r.window() == max_outbound,
            r.in_flight() == Seq::<u32>::empty(),
    {
        let mut data: Vec<u8> = Vec::new();
        let mut i: usize = 0;
        while i < message.len()
            invariant
                i <= message@.len(),
                data@ == message@.subrange(0, i as int),
            decreases message@.len() - i,
        {
            data.push(message[i]);
            i = i + 1;
            assert(data@ =~= message@.subrange(0, i as int));
        }
        assert(message@.subrange(0, i as int) =~= message@);
        OutboundChunkedPacket { data, index: 0, max_outbound, outbound_ids: Vec::new() }
    }

    /// How many payload bytes are still to be sent.
    pub fn get_remaining(&self) -> (r: usize)
        requires
            self.wf(),
        ensures
            r == self.payload().len() - self.cursor(),
    {
        self.data.len() - self.index
    }

    fn in_flight_count(&self) -> (r: usize)
        ensures
            r == self.in_flight().len(),
    {
        self.outbound_ids.len()
    }

    fn window_size(&self) -> (r: usize)
        ensures
            r == self.window(),
    {
        self.max_outbound
    }

    /// Takes the next fragment of at most `MAX_CHUNK_PAYLOAD` bytes, framed,
    /// and records `id` as awaiting acknowledgement.
    fn take_fragment(&mut self, id: u32) -> (r: Packet)
        requires
            old(self).wf(),
            old(self).cursor() < old(self).payload().len(),
        ensures
            final(self).wf(),
            r.wf(),
            ({
                let c = old(self).cursor() as int;
                let n = old(self).payload().len() - c;
                let size = if n > MAX_CHUNK_PAYLOAD { MAX_CHUNK_PAYLOAD as int } else { n };
                &&& r@ == chunk_frame(old(self).payload().subrange(c, c + size))
                &&& final(self).cursor() == c + size
                &&& final(self).payload() == old(self).payload()
                &&& final(self).window() == old(self).window()
                &&& final(self).in_flight() == old(self).in_flight().push(id)
            }),
    {
        let mut size = self.data.len() - self.index;
        if size > MAX_CHUNK_PAYLOAD {
            size = MAX_CHUNK_PAYLOAD;
        }
        let mut p = Packet::empty();
        p.write_u8(0x00);
        p.write_u8(0x0A);
        p.write_u32(size as u32);
        let ghost start = p@;
        let len = self.data.len();
        let mut i: usize = 0;
        while i < size
            invariant
                self == old(self),
                self.wf(),
                len == self.data@.len(),
                self.index + size <= len,
                size <= MAX_CHUNK_PAYLOAD,
                i <= size,
                p.wf(),
                p.size == CHUNK_HEADER_SIZE + i,
                p@ == start + self.data@.subrange(self.index as int, self.index + i),
            decreases size - i,
        {
            p.write_u8(self.data[self.index + i]);
            assert(self.data@.subrange(self.index as int, self.index + i + 1) =~= self.data@.subrange(
                self.index as int,
                self.index + i,
            ).push(self.data@[self.index + i]));
            i = i + 1;
        }
        let ghost part = self.data@.subrange(self.index as int, self.index + size);
        assert(p@ =~= chunk_frame(part));
        self.index = self.index + size;
        self.outbound_ids.push(id);
        p
    }

    /// Stops waiting for fragment `id`, if it was awaited.
    fn retire(&mut self, id: u32)
        requires
            old(self).wf(),
        ensures
            final(self).wf(),
            final(self).payload() == old(self).payload(),
            final(self).cursor() == old(self).cursor(),
            final(self).window() == old(self).window(),
            old(self).in_flight().contains(id) ==> exists|i: int|
                first_pos(old(self).in_flight(), id, i) && final(self).in_flight() == swap_removed(
                    old(self).in_flight(),
                    i,
                ),
            !old(self).in_flight().contains(id) ==> final(self).in_flight() == old(self).in_flight(),
    {
        let mut i: usize = 0;
        while i < self.outbound_ids.len()
            invariant
                self == old(self),
                old(self).wf(),
                i <= self.outbound_ids@.len(),
                forall|j: int| 0 <= j < i ==> self.outbound_ids@[j] != id,
            decreases self.outbound_ids@.len() - i,
        {
            if self.outbound_ids[i] == id {
                self.outbound_ids.swap_remove(i);
                assert(first_pos(old(self).in_flight(), id, i as int));
                assert(self.in_flight() == swap_removed(old(self).in_flight(), i as int));
                return;
            }
            i = i + 1;
        }
    }
}

/// `r` and `s1` are what releasing from `s0` yields: the first queued message
/// whose id is the next expected one, removed, with the expected id advanced;
/// or nothing, and no change, when that message has not arrived.
pub open spec fn pop_post(s0: PacketSequencer, s1: PacketSequencer, r: Option<ReliableMessage>) -> bool {
    &&& r is Some <==> has_id(s0.reliable_queue@, s0.next_process_id)
    &&& match r {
        Some(m) => exists|i: int|
            {
                &&& first_with_id(s0.reliable_queue@, s0.next_process_id, i)
                &&& m == s0.reliable_queue@[i]
                &&& s1.reliable_queue@ == swap_removed(s0.reliable_queue@, i)
                &&& s1.next_process_id == next_id(s0.next_process_id)
            },
        None => s1.reliable_queue == s0.reliable_queue && s1.next_process_id == s0.next_process_id,
    }
    &&& r matches Some(m) ==> m.id == s0.next_process_id
    &&& s1.next_reliable_gen_id == s0.next_reliable_gen_id
    &&& s1.reliable_sent == s0.reliable_sent
    &&& s1.outbound_chunked == s0.outbound_chunked
}

/// `s1` is what acknowledging `id` leaves of `s0`: the first sent message
/// with that id is retired; the id stops being awaited by the transfer,
/// which is dropped once it is complete. An unknown id changes nothing.
pub open spec fn ack_post(s0: PacketSequencer, s1: PacketSequencer, id: u32) -> bool {
    &&& s1.next_process_id == s0.next_process_id
    &&& s1.next_reliable_gen_id == s0.next_reliable_gen_id
    &&& s1.reliable_queue == s0.reliable_queue
    &&& !has_id(s0.reliable_sent@, id) ==> s1 == s0
    &&& has_id(s0.reliable_sent@, id) ==> {
        &&& exists|i: int|
            first_with_id(s0.reliable_sent@, id, i) && s1.reliable_sent@ == swap_removed(
                s0.reliable_sent@,
                i,
            )
        &&& match s0.outbound_chunked {
            None => s1.outbound_chunked is None,
            Some(c) => {
                let rest = if c.in_flight().contains(id) {
                    swap_removed(c.in_flight(), choose|i: int| first_pos(c.in_flight(), id, i))
                } else {
                    c.in_flight()
                };
                if c.cursor() == c.payload().len() && rest.len() == 0 {
                    s1.outbound_chunked is None
                } else {
                    s1.outbound_chunked matches Some(d) && d.payload() == c.payload() && d.cursor()
                        == c.cursor() && d.window() == c.window() && d.in_flight() == rest
                }
            },
        }
    }
}

/// `s1` and `r` are what pumping `s0` at `now` yields: nothing without a
/// transfer; a complete transfer is dropped; with room in the window the next
/// fragment, of at most `MAX_CHUNK_PAYLOAD` bytes, sent under the next id.
pub open spec fn pump_post(s0: PacketSequencer, s1: PacketSequencer, now: Tick, r: Option<Packet>) -> bool {
    &&& s1.next_process_id == s0.next_process_id
    &&& s1.reliable_queue == s0.reliable_queue
    &&& match s0.outbound_chunked {
        None => r is None && s1 == s0,
        Some(c) => if c.is_done() {
            &&& r is None
            &&& s1.outbound_chunked is None
            &&& s1.reliable_sent == s0.reliable_sent
            &&& s1.next_reliable_gen_id == s0.next_reliable_gen_id
        } else if c.in_flight().len() >= c.window() || c.cursor() == c.payload().len() {
            r is None && s1 == s0
        } else {
            let id = s0.next_reliable_gen_id;
            let at = c.cursor() as int;
            let n = c.payload().len() - at;
            let size = if n > MAX_CHUNK_PAYLOAD { MAX_CHUNK_PAYLOAD as int } else { n };
            &&& r matches Some(p) && p.wf() && p@ == chunk_frame(c.payload().subrange(at, at + size))
                && appended(s0.reliable_sent@, s1.reliable_sent@, id, now, p@)
            &&& s1.next_reliable_gen_id == next_id(id)
            &&& s1.outbound_chunked matches Some(d) && d.wf() && d.payload() == c.payload()
                && d.cursor() == at + size && d.window() == c.window() && d.in_flight()
                == c.in_flight().push(id)
        },
    }
}

/// Reliability state of one connection.
pub struct PacketSequencer {
    /// Id of the next received message to release.
    pub next_process_id: u32,
    /// Id that the next sent reliable message takes.
    pub next_reliable_gen_id: u32,
    /// Sent messages that await acknowledgement.
    pub reliable_sent: Vec<ReliableMessage>,
    /// Received messages that await release in id order.
    pub reliable_queue: Vec<ReliableMessage>,
    /// A large payload being streamed out, if any.
    pub outbound_chunked: Option<OutboundChunkedPacket>,
}

impl PacketSequencer {
    /// Every stored message and the transfer, if any, are well formed.
    pub open spec fn wf(&self) -> bool {
        &&& forall|i: int| 0 <= i < self.reliable_sent@.len() ==> #[trigger] self.reliable_sent@[i].wf()
        &&& forall|i: int| 0 <= i < self.reliable_queue@.len() ==> #[trigger] self.reliable_queue@[i].wf()
        &&& self.outbound_chunked matches Some(c) ==> c.wf()
    }

    /// A sequencer with nothing sent or received, expecting id 0 both ways.
    pub fn new() -> (r: PacketSequencer)
        ensures
            r.wf(),
            r.next_process_id == 0,
            r.next_reliable_gen_id == 0,
            r.reliable_sent@ == Seq::<ReliableMessage>::empty(),
            r.reliable_queue@ == Seq::<ReliableMessage>::empty(),
            r.outbound_chunked is None,
    {
        PacketSequencer {
            next_process_id: 0,
            next_reliable_gen_id: 0,
            reliable_sent: Vec::new(),
            reliable_queue: Vec::new(),
            outbound_chunked: None,
        }
    }

    /// Removes and returns the received message whose id is the next one to
    /// release, advancing that id; nothing when it has not arrived.
    pub fn pop_process_queue(&mut self) -> (r: Option<ReliableMessage>)
        requires
            old(self).wf(),
        ensures
            final(self).wf(),
            pop_post(*old(self), *final(self), r),
            r matches Some(m) ==> m.wf(),
    {
        let want = self.next_process_id;
        let mut i: usize = 0;
        while i < self.reliable_queue.len()
            invariant
                self == old(self),
                old(self).wf(),
                want == self.next_process_id,
                i <= self.reliable_queue@.len(),
                forall|j: int| 0 <= j < i ==> self.reliable_queue@[j].id != want,
            decreases self.reliable_queue@.len() - i,
        {
            if self.reliable_queue[i].id == want {
                self.next_process_id = want.wrapping_add(1);
                let m = self.reliable_queue.swap_remove(i);
                assert(first_with_id(old(self).reliable_queue@, want, i as int));
                assert forall|j: int| 0 <= j < self.reliable_queue@.len() implies #[trigger] self.reliable_queue@[j].wf() by {
                    assert(old(self).reliable_queue@[j].wf());
                    assert(old(self).reliable_queue@[old(self).reliable_queue@.len() - 1].wf());
                }
                return Some(m);
            }
            i = i + 1;
        }
        None
    }

    /// Retires sent message `id` on its acknowledgement; a fragment of the
    /// transfer stops being awaited, and a transfer that is then complete
    /// is dropped. An unknown id changes nothing.
    pub fn handle_ack(&mut self, id: u32)
        requires
            old(self).wf(),
        ensures
            final(self).wf(),
            ack_post(*old(self), *final(self), id),
    {
        let mut i: usize = 0;
        while i < self.reliable_sent.len()
            invariant
                self == old(self),
                old(self).wf(),
                i <= self.reliable_sent@.len(),
                forall|j: int| 0 <= j < i ==> self.reliable_sent@[j].id != id,
            decreases self.reliable_sent@.len() - i,
        {
            if self.reliable_sent[i].id == id {
                let _ = self.reliable_sent.swap_remove(i);
                assert(first_with_id(old(self).reliable_sent@, id, i as int));
                assert(self.reliable_sent@ == swap_removed(old(self).reliable_sent@, i as int));
                assert forall|j: int| 0 <= j < self.reliable_sent@.len() implies #[trigger] self.reliable_sent@[j].wf() by {
                    assert(old(self).reliable_sent@[j].wf());
                    assert(old(self).reliable_sent@[old(self).reliable_sent@.len() - 1].wf());
                }
                let ghost before = self.outbound_chunked;
                let done = match &mut self.outbound_chunked {
                    Some(c) => {
                        let ghost c0 = *c;
                        c.retire(id);
                        proof {
                            if c0.in_flight().contains(id) {
                                let k = choose|k: int|
                                    first_pos(c0.in_flight(), id, k) && c.in_flight()
                                        == swap_removed(c0.in_flight(), k);
                                let m = choose|m: int| first_pos(c0.in_flight(), id, m);
                                lemma_first_pos_unique(c0.in_flight(), id, k, m);
                            }
                        }
                        c.get_remaining() == 0 && c.in_flight_count() == 0
                    },
                    None => false,
                };
                if done {
                    self.outbound_chunked = None;
                }
                return;
            }
            i = i + 1;
        }
    }

    /// Frames `message` as the next reliable message, records it as awaiting
    /// acknowledgement, stamped `now`, and advances the id; a message too long
    /// for one datagram is refused and changes nothing.
    pub fn send_reliable(&mut self, message: &[u8], now: Tick) -> (r: Option<Packet>)
        requires
            old(self).wf(),
        ensures
            final(self).wf(),
            r is Some <==> message@.len() <= MAX_RELIABLE_PAYLOAD,
            r is None ==> *final(self) == *old(self),
            r matches Some(p) ==> {
                &&& p.wf()
                &&& p@ == reliable_frame(old(self).next_reliable_gen_id, message@)
                &&& appended(
                    old(self).reliable_sent@,
                    final(self).reliable_sent@,
                    old(self).next_reliable_gen_id,
                    now,
                    message@,
                )
                &&& final(self).next_reliable_gen_id == next_id(old(self).next_reliable_gen_id)
                &&& final(self).next_process_id == old(self).next_process_id
                &&& final(self).reliable_queue == old(self).reliable_queue
                &&& final(self).outbound_chunked == old(self).outbound_chunked
            },
    {
        if message.len() > MAX_RELIABLE_PAYLOAD {
            return None;
        }
        let id = self.next_reliable_gen_id;
        let m = ReliableMessage::new_at(id, message, now);
        let p = Packet::new_reliable(id, message);
        self.reliable_sent.push(m);
        assert(self.reliable_sent@.drop_last() =~= old(self).reliable_sent@);
        self.increment_id();
        Some(p)
    }

    /// Adds a received message to those awaiting release.
    pub fn enqueue_received(&mut self, msg: ReliableMessage)
        requires
            old(self).wf(),
            msg.wf(),
        ensures
            final(self).wf(),
            final(self).reliable_queue@ == old(self).reliable_queue@.push(msg),
            final(self).next_process_id == old(self).next_process_id,
            final(self).next_reliable_gen_id == old(self).next_reliable_gen_id,
            final(self).reliable_sent == old(self).reliable_sent,
            final(self).outbound_chunked == old(self).outbound_chunked,
    {
        self.reliable_queue.push(msg);
    }

    /// Starts streaming `message` out in fragments, letting `window` of them
    /// await acknowledgement at a time; any earlier transfer is dropped.
    pub fn start_chunked(&mut self, message: &[u8], window: usize)
        requires
            old(self).wf(),
        ensures
            final(self).wf(),
            final(self).outbound_chunked matches Some(c) && c.payload() == message@ && c.cursor()
                == 0 && c.window() == window && c.in_flight() == Seq::<u32>::empty(),
            final(self).next_process_id == old(self).next_process_id,
            final(self).next_reliable_gen_id == old(self).next_reliable_gen_id,
            final(self).reliable_sent == old(self).reliable_sent,
            final(self).reliable_queue == old(self).reliable_queue,
    {
        self.outbound_chunked = Some(OutboundChunkedPacket::new(message, window));
    }

    /// The next fragment of the transfer to send, if the window has room.
    /// It is returned as its bare `0x00 0x0A` frame (length, then up to 514
    /// payload bytes), which with a full piece fills a datagram and so leaves
    /// no room for a reliable header. It is recorded in `reliable_sent` under
    /// the next reliable id, which joins the transfer's awaited ids, and
    /// `handle_ack` of that id retires it like any sent message. A transfer
    /// that is complete is dropped.
    pub fn next_packet(&mut self, now: Tick) -> (r: Option<Packet>)
        requires
            old(self).wf(),
        ensures
            final(self).wf(),
            pump_post(*old(self), *final(self), now, r),
    {
        let id = self.next_reliable_gen_id;
        let (done, fragment) = match &mut self.outbound_chunked {
            None => (false, None),
            Some(c) => {
                if c.get_remaining() == 0 && c.in_flight_count() == 0 {
                    (true, None)
                } else if c.in_flight_count() >= c.window_size() || c.get_remaining() == 0 {
                    (false, None)
                } else {
                    (false, Some(c.take_fragment(id)))
                }
            },
        };
        if done {
            self.outbound_chunked = None;
            return None;
        }
        match fragment {
            None => None,
            Some(p) => {
                let m = ReliableMessage { id, timestamp: now, size: p.size, message: p.data };
                self.reliable_sent.push(m);
                assert(self.reliable_sent@.drop_last() =~= old(self).reliable_sent@);
                self.increment_id();
                Some(p)
            },
        }
    }

    /// Advances the id for the next sent reliable message, wrapping.
    pub fn increment_id(&mut self)
        ensures
            final(self).next_reliable_gen_id == next_id(old(self).next_reliable_gen_id),
            final(self).next_process_id == old(self).next_process_id,
            final(self).reliable_sent == old(self).reliable_sent,
            final(self).reliable_queue == old(self).reliable_queue,
            final(self).outbound_chunked == old(self).outbound_chunked,
    {
        self.next_reliable_gen_id = self.next_reliable_gen_id.wrapping_add(1);
    }
}

/// No two messages of `s` share an id.
pub open spec fn unique_ids(s: Seq<ReliableMessage>) -> bool {
    forall|a: int, b: int|
        0 <= a < s.len() && 0 <= b < s.len() && #[trigger] s[a].id == #[trigger] s[b].id ==> a == b
}

/// Acknowledging `id` retires exactly the sent message with that id, when ids
/// are unique: every other sent message stays, unchanged, and none is added.
pub proof fn lemma_ack_retires_only_its_message(s0: PacketSequencer, s1: PacketSequencer, id: u32)
    requires
        ack_post(s0, s1, id),
        unique_ids(s0.reliable_sent@),
    ensures
        forall|m: ReliableMessage|
            s1.reliable_sent@.contains(m) <==> (s0.reliable_sent@.contains(m) && m.id != id),
        s1.reliable_sent@.len() == s0.reliable_sent@.len() - (if has_id(s0.reliable_sent@, id) {
            1int
        } else {
            0int
        }),
{
    let q = s0.reliable_sent@;
    if has_id(q, id) {
        let i = choose|i: int| first_with_id(q, id, i) && s1.reliable_sent@ == swap_removed(q, i);
        let r = s1.reliable_sent@;
        assert forall|m: ReliableMessage| r.contains(m) <==> (q.contains(m) && m.id != id) by {
            if r.contains(m) {
                let k = choose|k: int| 0 <= k < r.len() && r[k] == m;
                if k == i {
                    assert(m == q[q.len() - 1]);
                    assert(q[q.len() - 1].id != id || q.len() - 1 == i);
                } else {
                    assert(m == q[k]);
                    assert(q[k].id != id || k == i);
                }
            }
            if q.contains(m) && m.id != id {
                let k = choose|k: int| 0 <= k < q.len() && q[k] == m;
                assert(k != i);
                if k == q.len() - 1 {
                    assert(r[i] == m);
                } else {
                    assert(r[k] == m);
                }
            }
        }
    } else {
        assert forall|m: ReliableMessage| s1.reliable_sent@.contains(m) <==> (q.contains(m) && m.id != id) by {
            if q.contains(m) {
                let k = choose|k: int| 0 <= k < q.len() && q[k] == m;
                assert(q[k].id != id);
            }
        }
    }
}

/// How many fragments a payload of `n` bytes is sent in.
pub open spec fn chunk_count(n: nat) -> nat {
    (n + 513) / 514
}

/// The bytes fragment `j` of `payload` carries.
pub open spec fn chunk_piece(payload: Seq<u8>, j: int) -> Seq<u8> {
    let start = 514 * j;
    let end = if start + 514 < payload.len() { start + 514 } else { payload.len() as int };
    payload.subrange(start, end)
}

/// `parts` joined end to end.
pub open spec fn joined(parts: Seq<Seq<u8>>) -> Seq<u8>
    decreases parts.len(),
{
    if parts.len() == 0 {
        Seq::empty()
    } else {
        joined(parts.drop_last()) + parts.last()
    }
}

/// After `j` fragments of `payload` were sent and acknowledged, `s` still
/// holds the transfer, at the next fragment with none awaited, unless all
/// were sent, in which case the transfer is gone.
pub open spec fn transfer_at(s: PacketSequencer, payload: Seq<u8>, window: nat, j: int) -> bool {
    if 514 * j < payload.len() {
        s.outbound_chunked matches Some(c) && c.payload() == payload && c.cursor() == 514 * j
            && c.window() == window && c.in_flight().len() == 0
    } else {
        s.outbound_chunked is None
    }
}

proof fn lemma_transfer_steps(
    states: Seq<PacketSequencer>,
    frags: Seq<Packet>,
    now: Tick,
    payload: Seq<u8>,
    window: nat,
    k: int,
)
    requires
        payload.len() > 0,
        window >= 1,
        0 <= k <= frags.len(),
        states.len() == 2 * frags.len() + 1,
        transfer_at(states[0], payload, window, 0),
        forall|j: int|
            0 <= j < frags.len() ==> pump_post(
                #[trigger] states[2 * j],
                states[2 * j + 1],
                now,
                Some(frags[j]),
            ) && ack_post(states[2 * j + 1], states[2 * j + 2], states[2 * j].next_reliable_gen_id),
    ensures
        transfer_at(states[2 * k], payload, window, k),
        514 * k < payload.len() + 514,
        forall|j: int| 0 <= j < k ==> (#[trigger] frags[j])@ == chunk_frame(chunk_piece(payload, j)),
        joined(Seq::new(k as nat, |j: int| chunk_piece(payload, j))) == payload.subrange(
            0,
            if 514 * k < payload.len() { 514 * k } else { payload.len() as int },
        ),
    decreases k,
{
    if k == 0 {
        assert(joined(Seq::new(0, |j: int| chunk_piece(payload, j))) =~= payload.subrange(0, 0));
    } else {
        let j = k - 1;
        lemma_transfer_steps(states, frags, now, payload, window, j);
        let s0 = states[2 * j];
        let s1 = states[2 * j + 1];
        let s2 = states[2 * j + 2];
        assert(pump_post(states[2 * j], states[2 * j + 1], now, Some(frags[j])));
        let id = s0.next_reliable_gen_id;
        let c = s0.outbound_chunked->Some_0;
        let d = s1.outbound_chunked->Some_0;
        assert(514 * j < payload.len());
        assert(d.in_flight() =~= seq![id]);
        assert(s1.reliable_sent@.last().id == id);
        assert(has_id(s1.reliable_sent@, id));
        assert(d.in_flight()[0] == id);
        assert(d.in_flight().contains(id));
        assert(first_pos(d.in_flight(), id, 0));
        let m = choose|m: int| first_pos(d.in_flight(), id, m);
        lemma_first_pos_unique(d.in_flight(), id, m, 0);
        assert(swap_removed(d.in_flight(), 0).len() == 0);
        let parts = Seq::new(k as nat, |i: int| chunk_piece(payload, i));
        assert(parts.drop_last() =~= Seq::new(j as nat, |i: int| chunk_piece(payload, i)));
        let end = if 514 * k < payload.len() { 514 * k } else { payload.len() as int };
        assert(payload.subrange(0, 514 * j) + chunk_piece(payload, j) =~= payload.subrange(0, end));
    }
}

/// Streaming a payload of `N > 0` bytes with a window of at least one, when
/// every fragment is acknowledged right after it is sent: fragment `j` carries
/// the `j`-th run of 514 bytes, so the fragments joined in order give back
/// the payload; there are at most `ceil(N / 514)` of them; and the transfer
/// is dropped exactly when the last one is acknowledged.
pub proof fn lemma_chunked_transfer(
    states: Seq<PacketSequencer>,
    frags: Seq<Packet>,
    now: Tick,
    payload: Seq<u8>,
    window: nat,
)
    requires
        payload.len() > 0,
        window >= 1,
        states.len() == 2 * frags.len() + 1,
        states[0].outbound_chunked matches Some(c) && c.payload() == payload && c.cursor() == 0
            && c.window() == window && c.in_flight().len() == 0,
        forall|j: int|
            0 <= j < frags.len() ==> pump_post(
                #[trigger] states[2 * j],
                states[2 * j + 1],
                now,
                Some(frags[j]),
            ) && ack_post(states[2 * j + 1], states[2 * j + 2], states[2 * j].next_reliable_gen_id),
    ensures
        frags.len() <= chunk_count(payload.len()),
        forall|j: int| 0 <= j < frags.len() ==> (#[trigger] frags[j])@ == chunk_frame(chunk_piece(payload, j)),
        frags.len() == chunk_count(payload.len()) ==> joined(
            Seq::new(frags.len(), |j: int| chunk_piece(payload, j)),
        ) == payload,
        (states[2 * frags.len() as int].outbound_chunked is None) <==> frags.len() == chunk_count(
            payload.len(),
        ),
{
    let k = frags.len() as int;
    lemma_transfer_steps(states, frags, now, payload, window, k);
    let n = payload.len() as int;
    assert(chunk_count(payload.len()) == (n + 513) / 514);
    assert((514 * k < n) <==> (k < (n + 513) / 514)) by (nonlinear_arith)
        requires
            0 <= k,
            n > 0,
            514 * k < n + 514,
    ;
    assert(k <= (n + 513) / 514) by (nonlinear_arith)
        requires
            0 <= k,
            514 * k < n + 514,
    ;
    if k == chunk_count(payload.len()) {
        assert(payload.subrange(0, n) =~= payload);
    }
}

} // verus!
