//! Sessions: a connection per remote address, the dispatcher that decodes
//! each datagram and drives the login handshake, and the server state that
//! accepts, times out and tears down connections. Nothing here touches a
//! socket: every datagram to send is returned as a `Datagram`.
use vstd::prelude::*;

use crate::clock::{tick_diff, Tick};
use crate::packet::{
    ack_frame, le16, le32, read_u32_le, reliable_frame, sync_response_frame, Packet,
    MAX_PACKET_SIZE, MAX_RELIABLE_PAYLOAD,
};
use crate::player::{PeerAddr, Player, PlayerId, PlayerManager, INVALID_PLAYER_ID, MAX_PLAYERS};
use crate::sequencer::{
    ack_post, appended, has_id, pop_post, PacketSequencer, ReliableMessage, first_with_id,
    next_id, swap_removed,
};
use vstd::slice::slice_subrange;

verus! {

broadcast use {vstd::array::group_array_axioms, vstd::std_specs::hash::group_hash_axioms};

/// A datagram to send to `to`.
pub struct Datagram {
    pub to: PeerAddr,
    pub packet: Packet,
}

/// `d` goes to `to` and carries exactly `bytes`.
pub open spec fn carries(d: Datagram, to: PeerAddr, bytes: Seq<u8>) -> bool {
    d.to == to && d.packet.wf() && d.packet@ == bytes
}

/// The id `k` places after `id`, wrapping at 2^32.
pub open spec fn id_plus(id: u32, k: int) -> u32 {
    ((id + k) % 0x1_0000_0000) as u32
}

/// The session state of one remote address.
pub struct Connection {
    pub addr: PeerAddr,
    pub packet_sequencer: PacketSequencer,
    pub player_id: PlayerId,
    pub last_packet_time: Tick,
    pub connected: bool,
}

/// `c1` keeps the player, the activity stamp and the connected flag of `c0`.
pub open spec fn same_session(c0: Connection, c1: Connection) -> bool {
    &&& c1.addr == c0.addr
    &&& c1.player_id == c0.player_id
    &&& c1.last_packet_time == c0.last_packet_time
    &&& c1.connected == c0.connected
}

/// From `c0` and `o0` to `c1` and `o1`, the connection sent `payloads` as
/// reliable messages, in order, under consecutive ids, recorded each of them
/// under its id as awaiting acknowledgement, and did nothing else.
pub open spec fn sent_reliably(
    c0: Connection,
    c1: Connection,
    o0: Seq<Datagram>,
    o1: Seq<Datagram>,
    payloads: Seq<Seq<u8>>,
) -> bool {
    let s0 = c0.packet_sequencer;
    let s1 = c1.packet_sequencer;
    let k = payloads.len();
    &&& c1.addr == c0.addr
    &&& s1.wf()
    &&& s1.next_process_id == s0.next_process_id
    &&& s1.reliable_queue == s0.reliable_queue
    &&& s1.outbound_chunked == s0.outbound_chunked
    &&& s1.next_reliable_gen_id == id_plus(s0.next_reliable_gen_id, k as int)
    &&& s1.reliable_sent@.len() == s0.reliable_sent@.len() + k
    &&& s1.reliable_sent@.subrange(0, s0.reliable_sent@.len() as int) == s0.reliable_sent@
    &&& forall|j: int|
        0 <= j < k ==> (#[trigger] s1.reliable_sent@[s0.reliable_sent@.len() + j]).id == id_plus(
            s0.next_reliable_gen_id,
            j,
        ) && s1.reliable_sent@[s0.reliable_sent@.len() + j]@ == payloads[j]
    &&& o1.len() == o0.len() + k
    &&& o1.subrange(0, o0.len() as int) == o0
    &&& forall|j: int|
        0 <= j < k ==> carries(
            #[trigger] o1[o0.len() + j],
            c0.addr,
            reliable_frame(id_plus(s0.next_reliable_gen_id, j), payloads[j]),
        )
}

proof fn lemma_id_plus(id: u32, a: int, b: int)
    requires
        0 <= a,
        0 <= b,
    ensures
        id_plus(id_plus(id, a), b) == id_plus(id, a + b),
{
    let m = 0x1_0000_0000int;
    assert(((id + a) % m + b) % m == (id + a + b) % m) by {
        vstd::arithmetic::div_mod::lemma_add_mod_noop(id + a, b, m);
        vstd::arithmetic::div_mod::lemma_mod_twice(b, m);
        vstd::arithmetic::div_mod::lemma_add_mod_noop((id + a) % m, b, m);
        vstd::arithmetic::div_mod::lemma_mod_twice(id + a, m);
    }
}

proof fn lemma_sent_nothing(c: Connection, o: Seq<Datagram>)
    requires
        c.packet_sequencer.wf(),
    ensures
        sent_reliably(c, c, o, o, Seq::empty()),
{
    assert(c.packet_sequencer.reliable_sent@.subrange(
        0,
        c.packet_sequencer.reliable_sent@.len() as int,
    ) =~= c.packet_sequencer.reliable_sent@);
    assert(o.subrange(0, o.len() as int) =~= o);
    assert(id_plus(c.packet_sequencer.next_reliable_gen_id, 0)
        == c.packet_sequencer.next_reliable_gen_id);
}

proof fn lemma_sent_then(
    c0: Connection,
    c1: Connection,
    c2: Connection,
    o0: Seq<Datagram>,
    o1: Seq<Datagram>,
    o2: Seq<Datagram>,
    p: Seq<Seq<u8>>,
    q: Seq<Seq<u8>>,
)
    requires
        sent_reliably(c0, c1, o0, o1, p),
        sent_reliably(c1, c2, o1, o2, q),
    ensures
        sent_reliably(c0, c2, o0, o2, p + q),
{
    let g0 = c0.packet_sequencer.next_reliable_gen_id;
    let n0 = c0.packet_sequencer.reliable_sent@.len() as int;
    let n1 = c1.packet_sequencer.reliable_sent@.len() as int;
    lemma_id_plus(g0, p.len() as int, q.len() as int);
    assert(c2.packet_sequencer.reliable_sent@.subrange(0, n0) =~= c2.packet_sequencer.reliable_sent@.subrange(0, n1).subrange(0, n0));
    assert(o2.subrange(0, o0.len() as int) =~= o2.subrange(0, o1.len() as int).subrange(0, o0.len() as int));
    assert forall|j: int| 0 <= j < p.len() + q.len() implies (#[trigger] c2.packet_sequencer.reliable_sent@[n0 + j]).id
        == id_plus(g0, j) && c2.packet_sequencer.reliable_sent@[n0 + j]@ == (p + q)[j] by {
        if j < p.len() {
            assert(c2.packet_sequencer.reliable_sent@[n0 + j] == c2.packet_sequencer.reliable_sent@.subrange(0, n1)[n0 + j]);
            assert(c1.packet_sequencer.reliable_sent@[n0 + j] == c2.packet_sequencer.reliable_sent@[n0 + j]);
        } else {
            let jj = j - p.len();
            lemma_id_plus(g0, p.len() as int, jj);
            assert(c2.packet_sequencer.reliable_sent@[n1 + jj] == c2.packet_sequencer.reliable_sent@[n0 + j]);
        }
    }
    assert forall|j: int| 0 <= j < p.len() + q.len() implies carries(
        #[trigger] o2[o0.len() + j],
        c0.addr,
        reliable_frame(id_plus(g0, j), (p + q)[j]),
    ) by {
        if j < p.len() {
            assert(o2[o0.len() + j] == o2.subrange(0, o1.len() as int)[o0.len() + j]);
            assert(o1[o0.len() + j] == o2[o0.len() + j]);
        } else {
            let jj = j - p.len();
            lemma_id_plus(g0, p.len() as int, jj);
            assert(o2[o1.len() + jj] == o2[o0.len() + j]);
        }
    }
}

impl Connection {
    /// The connection's sequencer is well formed.
    pub open spec fn wf(&self) -> bool {
        self.packet_sequencer.wf()
    }

    /// A fresh connection from `addr`, active at `now`, with no player yet.
    pub fn new(addr: PeerAddr, now: Tick) -> (r: Connection)
        ensures
            r.wf(),
            r.addr == addr,
            r.player_id == INVALID_PLAYER_ID,
            r.last_packet_time == now,
            r.connected,
            r.packet_sequencer.next_process_id == 0,
            r.packet_sequencer.next_reliable_gen_id == 0,
            r.packet_sequencer.reliable_sent@.len() == 0,
            r.packet_sequencer.reliable_queue@.len() == 0,
            r.packet_sequencer.outbound_chunked is None,
    {
        Connection {
            addr,
            packet_sequencer: PacketSequencer::new(),
            player_id: INVALID_PLAYER_ID,
            last_packet_time: now,
            connected: true,
        }
    }

    /// Sends `message` as the next reliable message; one too long for a
    /// datagram is refused and changes nothing.
    pub fn send_reliable_message(&mut self, message: &[u8], now: Tick, out: &mut Vec<Datagram>) -> (r: bool)
        requires
            old(self).wf(),
        ensures
            r == (message@.len() <= MAX_RELIABLE_PAYLOAD),
            same_session(*old(self), *final(self)),
            r ==> sent_reliably(*old(self), *final(self), old(out)@, final(out)@, seq![message@]),
            !r ==> *final(self) == *old(self) && final(out)@ == old(out)@,
    {
        match self.packet_sequencer.send_reliable(message, now) {
            Some(packet) => {
                out.push(Datagram { to: self.addr, packet });
                proof {
                    let s0 = old(self).packet_sequencer;
                    let s1 = self.packet_sequencer;
                    assert(s1.reliable_sent@.subrange(0, s0.reliable_sent@.len() as int) =~= s1.reliable_sent@.drop_last());
                    assert(out@.subrange(0, old(out)@.len() as int) =~= old(out)@);
                    assert(out@[old(out)@.len() + 0int] == out@.last());
                    assert(s1.reliable_sent@[s0.reliable_sent@.len() + 0int] == s1.reliable_sent@.last());
                    assert(id_plus(s0.next_reliable_gen_id, 0) == s0.next_reliable_gen_id);
                    assert(id_plus(s0.next_reliable_gen_id, 1) == next_id(s0.next_reliable_gen_id));
                }
                true
            },
            None => false,
        }
    }

    /// Tells the peer the session is over and marks it disconnected.
    pub fn send_disconnect(&mut self, out: &mut Vec<Datagram>)
        ensures
            disconnected(*old(self), *final(self), old(out)@, final(out)@),
    {
        let packet = Packet::empty().concat_u8(0x00).concat_u8(0x07);
        assert(packet@ =~= disconnect_frame());
        out.push(Datagram { to: self.addr, packet });
        assert(out@.drop_last() =~= old(out)@);
        self.connected = false;
    }
}

/// The disconnect notice.
pub open spec fn disconnect_frame() -> Seq<u8> {
    seq![0x00u8, 0x07u8]
}

/// From `c0`/`o0` to `c1`/`o1` the connection sent the disconnect notice and
/// was marked disconnected, and nothing else changed.
pub open spec fn disconnected(c0: Connection, c1: Connection, o0: Seq<Datagram>, o1: Seq<Datagram>) -> bool {
    &&& c1 == Connection { connected: false, ..c0 }
    &&& o1.len() == o0.len() + 1
    &&& o1.drop_last() == o0
    &&& carries(o1.last(), c0.addr, disconnect_frame())
}

/// Payload bytes in one small-chunk or enter-list piece.
pub const PIECE_SIZE: usize = 512;

/// Bytes of one enter record.
pub const ENTER_PACKET_SIZE: usize = 64;

/// `n` zero bytes.
pub open spec fn zeros(n: int) -> Seq<u8> {
    Seq::new(n as nat, |i: int| 0u8)
}

/// How many pieces a payload of `n` bytes is cut into.
pub open spec fn piece_count(n: nat) -> nat {
    (n + 511) / 512
}

/// Piece `j` of `m`: bytes `512 j` up to `512 (j + 1)` or the end.
pub open spec fn piece(m: Seq<u8>, j: int) -> Seq<u8> {
    let start = 512 * j;
    let end = if start + 512 < m.len() { start + 512 } else { m.len() as int };
    m.subrange(start, end)
}

/// Piece `j` of `m` as a small chunk: `0x00 0x08`, or `0x00 0x09` for the
/// last piece, then the bytes.
pub open spec fn small_chunk(m: Seq<u8>, j: int) -> Seq<u8> {
    seq![0x00u8, if 512 * j + 512 >= m.len() { 0x09u8 } else { 0x08u8 }] + piece(m, j)
}

/// The payloads that send `m` cut into pieces, as small chunks when `marked`.
pub open spec fn pieces(m: Seq<u8>, marked: bool) -> Seq<Seq<u8>> {
    Seq::new(piece_count(m.len()), |j: int| if marked { small_chunk(m, j) } else { piece(m, j) })
}

/// A player's name as UTF-8 bytes.
pub open spec fn name_bytes(p: Player) -> Seq<u8> {
    vstd::utf8::encode_utf8(p.name@)
}

/// The enter record of player `id` named `name`: `0x03 0x08 0x00`, a 48-byte
/// field holding the first 20 bytes of the name at most, the id, and zeros
/// up to 64 bytes.
pub open spec fn enter_frame(name: Seq<u8>, id: PlayerId) -> Seq<u8> {
    let n = if name.len() > 20 { 20 } else { name.len() as int };
    seq![0x03u8, 0x08u8, 0x00u8] + name.subrange(0, n) + zeros(48 - n) + le16(id) + zeros(11)
}

/// The enter records of the players with ids below `upto`, in id order.
pub open spec fn enter_list(m: Map<PlayerId, Player>, upto: int) -> Seq<u8>
    decreases upto,
{
    if upto <= 0 {
        Seq::empty()
    } else {
        let id = (upto - 1) as PlayerId;
        enter_list(m, upto - 1) + if m.contains_key(id) {
            enter_frame(name_bytes(m[id]), id)
        } else {
            Seq::empty()
        }
    }
}

/// Addresses of the players with ids below `upto` other than `skip`, in id
/// order.
pub open spec fn recipients(m: Map<PlayerId, Player>, upto: int, skip: int) -> Seq<PeerAddr>
    decreases upto,
{
    if upto <= 0 {
        Seq::empty()
    } else {
        let id = (upto - 1) as PlayerId;
        recipients(m, upto - 1, skip) + if m.contains_key(id) && upto - 1 != skip {
            seq![m[id].addr]
        } else {
            Seq::empty()
        }
    }
}

/// `o1` is `o0` followed by `bytes` sent to each of `to`, in order.
pub open spec fn sent_to_each(o0: Seq<Datagram>, o1: Seq<Datagram>, to: Seq<PeerAddr>, bytes: Seq<u8>) -> bool {
    &&& o1.len() == o0.len() + to.len()
    &&& o1.subrange(0, o0.len() as int) == o0
    &&& forall|j: int| 0 <= j < to.len() ==> carries(#[trigger] o1[o0.len() + j], to[j], bytes)
}

/// Appends `n` zero bytes to `p`.
fn pad_zeros(p: &mut Packet, n: usize)
    requires
        old(p).wf(),
        old(p).size + n <= MAX_PACKET_SIZE,
    ensures
        final(p).wf(),
        final(p).size == old(p).size + n,
        final(p)@ == old(p)@ + zeros(n as int),
{
    let mut i: usize = 0;
    while i < n
        invariant
            p.wf(),
            i <= n,
            p.size == old(p).size + i,
            old(p).size + n <= MAX_PACKET_SIZE,
            p@ == old(p)@ + zeros(i as int),
        decreases n - i,
    {
        p.write_u8(0);
        i = i + 1;
        assert(p@ =~= old(p)@ + zeros(i as int));
    }
}

/// The enter record of player `id` named `name`.
pub fn enter_record(name: &String, id: PlayerId) -> (r: Packet)
    ensures
        r.wf(),
        r.size == ENTER_PACKET_SIZE,
        r@ == enter_frame(vstd::utf8::encode_utf8(name@), id),
{
    let bytes = name.as_str().as_bytes();
    let n = if bytes.len() > 20 { 20 } else { bytes.len() };
    let mut p = Packet::empty();
    p.write_u8(0x03);
    p.write_u8(0x08);
    p.write_u8(0x00);
    p.append(slice_subrange(bytes, 0, n));
    pad_zeros(&mut p, 48 - n);
    p.write_u16(id);
    pad_zeros(&mut p, 11);
    assert(p@ =~= enter_frame(vstd::utf8::encode_utf8(name@), id));
    p
}

/// Sends `packet` to every player except `skip`, in id order.
fn broadcast(players: &PlayerManager, skip: PlayerId, packet: &Packet, out: &mut Vec<Datagram>)
    requires
        players.wf(),
        packet.wf(),
    ensures
        sent_to_each(old(out)@, final(out)@, recipients(players.players@, 1024, skip as int), packet@),
{
    let mut id: u16 = 0;
    assert(out@.subrange(0, out@.len() as int) =~= out@);
    while id < MAX_PLAYERS
        invariant
            players.wf(),
            packet.wf(),
            id <= 1024,
            sent_to_each(old(out)@, out@, recipients(players.players@, id as int, skip as int), packet@),
        decreases 1024 - id,
    {
        let ghost o = out@;
        let ghost before = recipients(players.players@, id as int, skip as int);
        match players.get_player_by_id(id) {
            Some(p) => {
                if id != skip {
                    out.push(Datagram { to: p.addr, packet: *packet });
                    assert(out@.subrange(0, o.len() as int) =~= o);
                    assert(out@.subrange(0, old(out)@.len() as int) =~= o.subrange(0, old(out)@.len() as int));
                }
            },
            None => {},
        }
        assert(recipients(players.players@, id + 1, skip as int) == before + if players.players@.contains_key(id) && id != skip {
            seq![players.players@[id].addr]
        } else {
            Seq::<PeerAddr>::empty()
        });
        id = id + 1;
        assert forall|j: int| 0 <= j < recipients(players.players@, id as int, skip as int).len() implies carries(
            #[trigger] out@[old(out)@.len() + j],
            recipients(players.players@, id as int, skip as int)[j],
            packet@,
        ) by {
            if j < before.len() {
                assert(out@[old(out)@.len() + j] == o[old(out)@.len() + j]);
            }
        }
    }
}

impl Connection {
    /// Sends `m` cut into 512-byte pieces, each as a reliable message; as
    /// small chunks (`0x08`, and `0x09` for the last) when `marked`.
    fn send_pieces(&mut self, m: &[u8], marked: bool, now: Tick, out: &mut Vec<Datagram>)
        requires
            old(self).wf(),
        ensures
            final(self).wf(),
            same_session(*old(self), *final(self)),
            sent_reliably(*old(self), *final(self), old(out)@, final(out)@, pieces(m@, marked)),
    {
        let ghost c0 = *self;
        let ghost o0 = out@;
        proof {
            lemma_sent_nothing(c0, o0);
            assert(pieces(m@, marked).subrange(0, 0) =~= Seq::<Seq<u8>>::empty());
        }
        let mut pos: usize = 0;
        let ghost mut j: int = 0;
        while pos < m.len()
            invariant
                self.wf(),
                same_session(c0, *self),
                0 <= j,
                pos == (if 512 * j < m@.len() { 512 * j } else { m@.len() as int }),
                pos <= m@.len(),
                j == 0 || 512 * (j - 1) < m@.len(),
                j <= piece_count(m@.len()),
                sent_reliably(c0, *self, o0, out@, pieces(m@, marked).subrange(0, j)),
            decreases m@.len() - pos,
        {
            let n = m.len() - pos;
            let size = if n > PIECE_SIZE { PIECE_SIZE } else { n };
            let mut payload = Packet::empty();
            if marked {
                payload.write_u8(0x00);
                payload.write_u8(if size == n { 0x09 } else { 0x08 });
            }
            payload.append(slice_subrange(m, pos, pos + size));
            let ghost c1 = *self;
            let ghost o1 = out@;
            proof {
                assert((512 * j + 512 + 511) / 512 == j + 1) by (nonlinear_arith)
                    requires
                        0 <= j,
                ;
                assert(j < piece_count(m@.len())) by (nonlinear_arith)
                    requires
                        0 <= j,
                        512 * j < m@.len(),
                        piece_count(m@.len()) == (m@.len() + 511) / 512,
                ;
                if marked {
                    assert(payload@ =~= small_chunk(m@, j));
                } else {
                    assert(payload@ =~= piece(m@, j));
                }
            }
            let sent = self.send_reliable_message(
                slice_subrange(payload.data.as_slice(), 0, payload.size),
                now,
                out,
            );
            proof {
                assert(sent);
                lemma_sent_then(c0, c1, *self, o0, o1, out@, pieces(m@, marked).subrange(0, j), seq![payload@]);
                assert(pieces(m@, marked).subrange(0, j) + seq![payload@] =~= pieces(m@, marked).subrange(0, j + 1));
            }
            pos = pos + size;
            proof {
                j = j + 1;
            }
        }
        proof {
            assert(j == piece_count(m@.len())) by (nonlinear_arith)
                requires
                    0 <= j,
                    512 * j >= m@.len(),
                    j == 0 || 512 * (j - 1) < m@.len(),
                    piece_count(m@.len()) == (m@.len() + 511) / 512,
            ;
            assert(pieces(m@, marked).subrange(0, j) =~= pieces(m@, marked));
        }
    }

    /// Sends `message` as a stream of small chunks.
    pub fn send_small_chunked_message(&mut self, message: &[u8], now: Tick, out: &mut Vec<Datagram>)
        requires
            old(self).wf(),
        ensures
            final(self).wf(),
            same_session(*old(self), *final(self)),
            sent_reliably(*old(self), *final(self), old(out)@, final(out)@, pieces(message@, true)),
    {
        self.send_pieces(message, true, now, out);
    }

    /// Sends the enter records of all players, in id order, packed eight to
    /// a reliable message.
    pub fn send_enter_list(&mut self, player_manager: &PlayerManager, now: Tick, out: &mut Vec<Datagram>)
        requires
            old(self).wf(),
            player_manager.wf(),
        ensures
            final(self).wf(),
            same_session(*old(self), *final(self)),
            sent_reliably(
                *old(self),
                *final(self),
                old(out)@,
                final(out)@,
                pieces(enter_list(player_manager.players@, 1024), false),
            ),
    {
        let mut list: Vec<u8> = Vec::new();
        let mut id: u16 = 0;
        while id < MAX_PLAYERS
            invariant
                player_manager.wf(),
                id <= 1024,
                list@ == enter_list(player_manager.players@, id as int),
            decreases 1024 - id,
        {
            match player_manager.get_player_by_id(id) {
                Some(p) => {
                    let rec = enter_record(&p.name, id);
                    let ghost before = list@;
                    let mut k: usize = 0;
                    while k < ENTER_PACKET_SIZE
                        invariant
                            k <= ENTER_PACKET_SIZE,
                            rec.wf(),
                            rec.size == ENTER_PACKET_SIZE,
                            list@ == before + rec@.subrange(0, k as int),
                        decreases ENTER_PACKET_SIZE - k,
                    {
                        list.push(rec.data[k]);
                        k = k + 1;
                        assert(list@ =~= before + rec@.subrange(0, k as int));
                    }
                    assert(rec@.subrange(0, 64) =~= rec@);
                },
                None => {},
            }
            id = id + 1;
        }
        self.send_pieces(list.as_slice(), false, now, out);
    }
}

/// The version-check reply to a password login.
pub open spec fn version_frame() -> Seq<u8> {
    seq![0x34u8, 0x28u8, 0x00u8, 0x86u8, 0x14u8, 0xB6u8, 0xC9u8]
}

/// The login-accepted reply: `0x0A 0x00`, server version 134, a reserved
/// 32-bit field left zero, a zero checksum and padding to 36 bytes.
pub open spec fn accept_frame() -> Seq<u8> {
    seq![0x0Au8, 0x00u8, 0x86u8, 0x00u8, 0x00u8, 0x00u8] + zeros(30)
}

/// The map descriptor: `0x29`, the map's file name in a 16-byte field, its
/// checksum and its size.
pub open spec fn map_info_frame() -> Seq<u8> {
    seq![0x29u8, 0x70u8, 0x75u8, 0x62u8, 0x2Eu8, 0x6Cu8, 0x76u8, 0x6Cu8] + zeros(9) + le32(
        1889723958,
    ) + le32(58992)
}

/// What an arena login sends, reliably and in order, to player `pid`.
pub open spec fn arena_login_payloads(g: Game, pid: PlayerId) -> Seq<Seq<u8>> {
    seq![seq![0x01u8] + le16(pid)] + pieces(g.arena_settings@, true) + seq![map_info_frame()]
        + pieces(enter_list(g.player_manager.players@, 1024), false) + seq![seq![0x02u8]]
}

/// Sum over the messages of `q` of their payload length plus one: the work
/// still queued for release.
pub open spec fn backlog(q: Seq<ReliableMessage>) -> nat
    decreases q.len(),
{
    if q.len() == 0 {
        0
    } else {
        backlog(q.drop_last()) + q.last().size as nat + 1
    }
}

proof fn lemma_backlog_update(q: Seq<ReliableMessage>, i: int, m: ReliableMessage)
    requires
        0 <= i < q.len(),
    ensures
        backlog(q.update(i, m)) + q[i].size == backlog(q) + m.size,
    decreases q.len(),
{
    if i == q.len() - 1 {
        assert(q.update(i, m).drop_last() =~= q.drop_last());
    } else {
        lemma_backlog_update(q.drop_last(), i, m);
        assert(q.update(i, m).drop_last() =~= q.drop_last().update(i, m));
    }
}

proof fn lemma_backlog_swap_removed(q: Seq<ReliableMessage>, i: int)
    requires
        0 <= i < q.len(),
    ensures
        backlog(swap_removed(q, i)) + q[i].size + 1 == backlog(q),
{
    lemma_backlog_update(q, i, q.last());
    assert(q.update(i, q.last()).last() == q.last());
}

/// The dispatcher's state: the players, and the arena settings sent to each
/// player entering the arena.
pub struct Game {
    pub player_manager: PlayerManager,
    pub arena_settings: Vec<u8>,
}

/// `c1` is `c0` with its player set to `pid`.
pub open spec fn with_player(c0: Connection, c1: Connection, pid: PlayerId) -> bool {
    &&& c1.addr == c0.addr
    &&& c1.player_id == pid
    &&& c1.last_packet_time == c0.last_packet_time
    &&& c1.connected == c0.connected
}

/// The outcome of password login `b` on connection `c0` with game `g0`.
pub open spec fn password_post(
    g0: Game,
    g1: Game,
    c0: Connection,
    c1: Connection,
    o0: Seq<Datagram>,
    o1: Seq<Datagram>,
    b: Seq<u8>,
) -> bool {
    let m0 = g0.player_manager.players@;
    let m1 = g1.player_manager.players@;
    if b.len() < 66 || !vstd::utf8::valid_utf8(b.subrange(2, 34)) || (forall|q: PlayerId|
        q < 1024 ==> m0.contains_key(q)) {
        &&& disconnected(c0, c1, o0, o1)
        &&& m1 == m0
        &&& g1.arena_settings == g0.arena_settings
    } else {
        exists|pid: PlayerId, c: Connection|
            {
                &&& pid < 1024
                &&& !m0.contains_key(pid)
                &&& (forall|q: PlayerId| q < pid ==> m0.contains_key(q))
                &&& m1.contains_key(pid)
                &&& m1[pid].id == pid
                &&& m1[pid].addr == c0.addr
                &&& m1[pid].name@ == vstd::utf8::decode_utf8(b.subrange(2, 34))
                &&& m1.remove(pid) == m0
                &&& g1.arena_settings == g0.arena_settings
                &&& with_player(c0, c, pid)
                &&& c.packet_sequencer == c0.packet_sequencer
                &&& with_player(c0, c1, pid)
                &&& sent_reliably(c, c1, o0, o1, seq![version_frame(), accept_frame()])
            }
    }
}

/// The outcome of an arena login on connection `c0` with game `g0`.
pub open spec fn arena_login_post(
    g0: Game,
    g1: Game,
    c0: Connection,
    c1: Connection,
    o0: Seq<Datagram>,
    o1: Seq<Datagram>,
) -> bool {
    let m = g0.player_manager.players@;
    let pid = c0.player_id;
    &&& g1 == g0
    &&& !m.contains_key(pid) ==> disconnected(c0, c1, o0, o1)
    &&& m.contains_key(pid) ==> exists|mid: Seq<Datagram>|
        {
            &&& same_session(c0, c1)
            &&& sent_reliably(c0, c1, o0, mid, arena_login_payloads(g0, pid))
            &&& sent_to_each(
                mid,
                o1,
                recipients(m, 1024, pid as int),
                enter_frame(name_bytes(m[pid]), pid),
            )
        }
}

/// Relies on `String::from_utf8`: the bytes as a string exactly when they
/// are valid UTF-8.
#[verifier::external_body]
fn string_from_utf8(bytes: Vec<u8>) -> (r: Option<String>)
    ensures
        r is Some <==> vstd::utf8::valid_utf8(bytes@),
        r matches Some(s) ==> s@ == vstd::utf8::decode_utf8(bytes@),
{
    String::from_utf8(bytes).ok()
}

/// The bytes in use of `p`.
fn packet_bytes(p: &Packet) -> (r: &[u8])
    requires
        p.wf(),
    ensures
        r@ == p@,
{
    slice_subrange(p.data.as_slice(), 0, p.size)
}

impl Game {
    /// The registry is well formed.
    pub open spec fn wf(&self) -> bool {
        self.player_manager.wf()
    }

    /// A game with no players that sends `arena_settings` on arena login.
    pub fn new(arena_settings: Vec<u8>) -> (r: Game)
        ensures
            r.wf(),
            r.player_manager.players@ == Map::<PlayerId, Player>::empty(),
            r.arena_settings@ == arena_settings@,
    {
        Game { player_manager: PlayerManager::new(), arena_settings }
    }

    /// Handles password login `packet`: creates the player under the lowest
    /// free id with the name from bytes 2 to 34, and sends the version check
    /// and the acceptance. A packet under 66 bytes, a name that is not UTF-8
    /// or a full pool ends the session instead.
    pub fn handle_password(&mut self, conn: &mut Connection, packet: &Packet, now: Tick, out: &mut Vec<Datagram>)
        requires
            old(self).wf(),
            old(conn).wf(),
            packet.wf(),
        ensures
            final(self).wf(),
            final(conn).wf(),
            password_post(*old(self), *final(self), *old(conn), *final(conn), old(out)@, final(out)@, packet@),
    {
        if packet.size < 66 {
            conn.send_disconnect(out);
            return;
        }
        let mut raw: Vec<u8> = Vec::new();
        let mut k: usize = 2;
        while k < 34
            invariant
                packet.wf(),
                packet.size >= 66,
                2 <= k <= 34,
                raw@ == packet@.subrange(2, k as int),
            decreases 34 - k,
        {
            raw.push(packet.data[k]);
            k = k + 1;
            assert(raw@ =~= packet@.subrange(2, k as int));
        }
        let ghost raw_view = raw@;
        let name = match string_from_utf8(raw) {
            Some(name) => name,
            None => {
                conn.send_disconnect(out);
                return;
            },
        };
        let ghost name_view = name@;
        match self.player_manager.create_player(conn.addr, name) {
            None => {
                conn.send_disconnect(out);
            },
            Some(pid) => {
                conn.player_id = pid;
                let ghost c = *conn;
                let ghost o0 = out@;
                let version = Packet::empty().concat_u8(0x34).concat_u8(0x28).concat_u8(0x00)
                    .concat_u32(0xC9B6_1486);
                assert(version@ =~= version_frame());
                let mut accept = Packet::empty().concat_u8(0x0A).concat_u8(0x00).concat_u32(134);
                pad_zeros(&mut accept, 30);
                assert(accept@ =~= accept_frame());
                conn.send_reliable_message(packet_bytes(&version), now, out);
                let ghost c1 = *conn;
                let ghost o1 = out@;
                conn.send_reliable_message(packet_bytes(&accept), now, out);
                proof {
                    lemma_sent_then(c, c1, *conn, o0, o1, out@, seq![version_frame()], seq![accept_frame()]);
                    assert(seq![version_frame()] + seq![accept_frame()] =~= seq![version_frame(), accept_frame()]);
                    let m0 = old(self).player_manager.players@;
                    assert(!m0.contains_key(pid));
                    assert(raw_view == packet@.subrange(2, 34));
                    assert(vstd::utf8::valid_utf8(packet@.subrange(2, 34)));
                    assert(self.player_manager.players@[pid].name@ == vstd::utf8::decode_utf8(packet@.subrange(2, 34)));
                    assert(with_player(*old(conn), c, pid));
                    assert(c.packet_sequencer == old(conn).packet_sequencer);
                    assert(with_player(*old(conn), *conn, pid));
                }
            },
        }
    }

    /// Handles an arena login on `conn`: sends the player's id, the arena
    /// settings as small chunks, the map descriptor, the enter list and the
    /// completion marker, then announces the player to everyone else. A
    /// connection with no player is disconnected instead.
    pub fn handle_arena_login(&mut self, conn: &mut Connection, now: Tick, out: &mut Vec<Datagram>)
        requires
            old(self).wf(),
            old(conn).wf(),
        ensures
            final(self).wf(),
            final(conn).wf(),
            arena_login_post(*old(self), *final(self), *old(conn), *final(conn), old(out)@, final(out)@),
    {
        let ghost g = *self;
        let ghost c0 = *conn;
        let ghost o0 = out@;
        let (pid, record) = match self.player_manager.get_player_by_id(conn.player_id) {
            None => {
                conn.send_disconnect(out);
                return;
            },
            Some(player) => (player.id, enter_record(&player.name, player.id)),
        };
        let id_packet = Packet::empty().concat_u8(0x01).concat_u16(pid);
        proof {
            lemma_sent_nothing(c0, o0);
        }
        conn.send_reliable_message(packet_bytes(&id_packet), now, out);
        let ghost c1 = *conn;
        let ghost o1 = out@;
        proof {
            assert(id_packet@ =~= seq![0x01u8] + le16(pid));
        }
        conn.send_small_chunked_message(self.arena_settings.as_slice(), now, out);
        let ghost c2 = *conn;
        let ghost o2 = out@;
        proof {
            lemma_sent_then(c0, c1, c2, o0, o1, o2, seq![seq![0x01u8] + le16(pid)], pieces(g.arena_settings@, true));
        }
        let mut map_info = Packet::empty().concat_u8(0x29).concat_u8(0x70).concat_u8(0x75)
            .concat_u8(0x62).concat_u8(0x2E).concat_u8(0x6C).concat_u8(0x76).concat_u8(0x6C);
        pad_zeros(&mut map_info, 9);
        map_info.write_u32(1889723958);
        map_info.write_u32(58992);
        assert(map_info@ =~= map_info_frame());
        conn.send_reliable_message(packet_bytes(&map_info), now, out);
        let ghost c3 = *conn;
        let ghost o3 = out@;
        proof {
            lemma_sent_then(c0, c2, c3, o0, o2, o3, seq![seq![0x01u8] + le16(pid)] + pieces(g.arena_settings@, true), seq![map_info_frame()]);
        }
        conn.send_enter_list(&self.player_manager, now, out);
        let ghost c4 = *conn;
        let ghost o4 = out@;
        proof {
            lemma_sent_then(c0, c3, c4, o0, o3, o4, seq![seq![0x01u8] + le16(pid)] + pieces(g.arena_settings@, true) + seq![map_info_frame()], pieces(enter_list(g.player_manager.players@, 1024), false));
        }
        let done = [0x02u8];
        conn.send_reliable_message(&done, now, out);
        let ghost mid = out@;
        proof {
            assert(done@ =~= seq![0x02u8]);
            lemma_sent_then(c0, c4, *conn, o0, o4, mid, seq![seq![0x01u8] + le16(pid)] + pieces(g.arena_settings@, true) + seq![map_info_frame()] + pieces(enter_list(g.player_manager.players@, 1024), false), seq![seq![0x02u8]]);
            assert(seq![seq![0x01u8] + le16(pid)] + pieces(g.arena_settings@, true) + seq![map_info_frame()] + pieces(enter_list(g.player_manager.players@, 1024), false) + seq![seq![0x02u8]] =~= arena_login_payloads(g, pid));
        }
        broadcast(&self.player_manager, pid, &record, out);
        assert(same_session(c0, *conn));
    }
}

/// The sub-packets of cluster body `b`: a length byte, then that many bytes,
/// repeated; a truncated last entry is dropped.
pub open spec fn cluster_parts(b: Seq<u8>) -> Seq<Seq<u8>>
    decreases b.len(),
{
    if b.len() == 0 {
        Seq::empty()
    } else if b.len() >= b[0] + 1 {
        seq![b.subrange(1, b[0] + 1)] + cluster_parts(b.subrange(b[0] + 1, b.len() as int))
    } else {
        Seq::empty()
    }
}

/// Sum over `ps` of each length plus one.
pub open spec fn parts_weight(ps: Seq<Seq<u8>>) -> nat
    decreases ps.len(),
{
    if ps.len() == 0 {
        0
    } else {
        ps[0].len() + 1 + parts_weight(ps.drop_first())
    }
}

proof fn lemma_cluster_parts_fit(b: Seq<u8>)
    ensures
        parts_weight(cluster_parts(b)) <= b.len(),
        forall|i: int| 0 <= i < cluster_parts(b).len() ==> #[trigger] cluster_parts(b)[i].len() < b.len(),
    decreases b.len(),
{
    if b.len() > 0 && b.len() >= b[0] + 1 {
        let rest = b.subrange(b[0] + 1, b.len() as int);
        lemma_cluster_parts_fit(rest);
        let ps = cluster_parts(b);
        assert(ps.drop_first() =~= cluster_parts(rest));
        assert forall|i: int| 0 <= i < ps.len() implies #[trigger] ps[i].len() < b.len() by {
            if i > 0 {
                assert(ps[i] == cluster_parts(rest)[i - 1]);
            }
        }
    }
}

/// `o1` is `o0` with one datagram appended: `bytes` sent to `to`.
pub open spec fn sent_one(o0: Seq<Datagram>, o1: Seq<Datagram>, to: PeerAddr, bytes: Seq<u8>) -> bool {
    &&& o1.len() == o0.len() + 1
    &&& o1.drop_last() == o0
    &&& carries(o1.last(), to, bytes)
}

/// The outcome of core packet `b` (outer type `0x00`, subtype `b[1]`, not a
/// cluster) on connection `c0`, handled at time `now`.
pub open spec fn core_post(
    c0: Connection,
    c1: Connection,
    o0: Seq<Datagram>,
    o1: Seq<Datagram>,
    b: Seq<u8>,
    now: Tick,
) -> bool {
    let s0 = c0.packet_sequencer;
    let s1 = c1.packet_sequencer;
    if b[1] == 0x03 {
        if b.len() < 7 {
            disconnected(c0, c1, o0, o1)
        } else {
            exists|id: u32|
                {
                    &&& le32(id) == b.subrange(2, 6)
                    &&& same_session(c0, c1)
                    &&& sent_one(o0, o1, c0.addr, ack_frame(id))
                    &&& appended(s0.reliable_queue@, s1.reliable_queue@, id, now, b.subrange(6, b.len() as int))
                    &&& s1.next_process_id == s0.next_process_id
                    &&& s1.next_reliable_gen_id == s0.next_reliable_gen_id
                    &&& s1.reliable_sent == s0.reliable_sent
                    &&& s1.outbound_chunked == s0.outbound_chunked
                }
        }
    } else if b[1] == 0x04 {
        if b.len() < 6 {
            c1 == c0 && o1 == o0
        } else {
            exists|id: u32|
                {
                    &&& le32(id) == b.subrange(2, 6)
                    &&& same_session(c0, c1)
                    &&& o1 == o0
                    &&& ack_post(s0, s1, id)
                }
        }
    } else if b[1] == 0x05 {
        if b.len() < 6 {
            c1 == c0 && o1 == o0
        } else {
            exists|ts: u32|
                {
                    &&& le32(ts) == b.subrange(2, 6)
                    &&& c1 == c0
                    &&& sent_one(o0, o1, c0.addr, sync_response_frame(ts, now@ as u32))
                }
        }
    } else if b[1] == 0x07 {
        c1 == Connection { connected: false, ..c0 } && o1 == o0
    } else {
        c1 == c0 && o1 == o0
    }
}

/// From `gs[0]`, `cs[0]`, `os[0]` on, each of `parts` was dispatched in turn,
/// step `i` leading to `gs[i + 1]`, `cs[i + 1]`, `os[i + 1]`. The guard on a
/// part's length bounds the recursion; every part of a cluster is shorter
/// than the cluster, so for those it always holds.
pub open spec fn dispatched_in_turn(
    gs: Seq<Game>,
    cs: Seq<Connection>,
    os: Seq<Seq<Datagram>>,
    parts: Seq<Seq<u8>>,
    n: int,
    now: Tick,
    bound: nat,
) -> bool
    decreases bound, 0int,
{
    &&& 0 <= n <= parts.len()
    &&& gs.len() == n + 1
    &&& cs.len() == n + 1
    &&& os.len() == n + 1
    &&& forall|i: int|
        0 <= i < n ==> (parts[i].len() < bound ==> dispatch_post(
            gs[i],
            gs[i + 1],
            cs[i],
            cs[i + 1],
            os[i],
            os[i + 1],
            #[trigger] parts[i],
            now,
        ))
}

/// The outcome of dispatching packet `b` at time `now`. A cluster's parts are
/// dispatched in turn, each as a packet of its own.
pub open spec fn dispatch_post(
    g0: Game,
    g1: Game,
    c0: Connection,
    c1: Connection,
    o0: Seq<Datagram>,
    o1: Seq<Datagram>,
    b: Seq<u8>,
    now: Tick,
) -> bool
    decreases b.len(), 1int,
{
    if b.len() == 0 {
        g1 == g0 && c1 == c0 && o1 == o0
    } else if b[0] == 0x00 {
        if b.len() < 2 {
            g1 == g0 && c1 == c0 && o1 == o0
        } else if b[1] == 0x0E {
            let parts = cluster_parts(b.subrange(2, b.len() as int));
            exists|gs: Seq<Game>, cs: Seq<Connection>, os: Seq<Seq<Datagram>>|
                #![trigger gs.last(), cs.last(), os.last()]
                {
                    &&& dispatched_in_turn(gs, cs, os, parts, parts.len() as int, now, b.len())
                    &&& gs[0] == g0 && cs[0] == c0 && os[0] == o0
                    &&& gs.last() == g1 && cs.last() == c1 && os.last() == o1
                }
        } else {
            g1 == g0 && core_post(c0, c1, o0, o1, b, now)
        }
    } else if b[0] == 0x01 {
        arena_login_post(g0, g1, c0, c1, o0, o1)
    } else if b[0] == 0x24 {
        password_post(g0, g1, c0, c1, o0, o1, b)
    } else {
        g1 == g0 && c1 == c0 && o1 == o0
    }
}

/// Cuts cluster body `body` into its sub-packets.
pub fn split_cluster(body: &[u8]) -> (r: Vec<Packet>)
    ensures
        r@.len() == cluster_parts(body@).len(),
        forall|i: int| 0 <= i < r@.len() ==> (#[trigger] r@[i]).wf() && r@[i]@ == cluster_parts(body@)[i],
{
    let mut r: Vec<Packet> = Vec::new();
    let mut pos: usize = 0;
    proof {
        assert(body@.subrange(0, body@.len() as int) =~= body@);
        assert(Seq::new(0, |i: int| r@[i]@) + cluster_parts(body@) =~= cluster_parts(body@));
    }
    while pos < body.len()
        invariant
            pos <= body@.len(),
            forall|i: int| 0 <= i < r@.len() ==> (#[trigger] r@[i]).wf(),
            cluster_parts(body@) == Seq::new(r@.len(), |i: int| r@[i]@) + cluster_parts(
                body@.subrange(pos as int, body@.len() as int),
            ),
        ensures
            pos <= body@.len(),
            forall|i: int| 0 <= i < r@.len() ==> (#[trigger] r@[i]).wf(),
            cluster_parts(body@) == Seq::new(r@.len(), |i: int| r@[i]@) + cluster_parts(
                body@.subrange(pos as int, body@.len() as int),
            ),
            cluster_parts(body@.subrange(pos as int, body@.len() as int)) == Seq::<Seq<u8>>::empty(),
        decreases body@.len() - pos,
    {
        let ghost rest = body@.subrange(pos as int, body@.len() as int);
        let n = body[pos] as usize;
        if body.len() - pos < n + 1 {
            assert(rest[0] == n);
            break;
        }
        let part = Packet::new(slice_subrange(body, pos + 1, pos + 1 + n));
        let ghost before = Seq::new(r@.len(), |i: int| r@[i]@);
        r.push(part);
        proof {
            assert(rest.subrange(1, n + 1) =~= part@);
            assert(rest.subrange(n + 1, rest.len() as int) =~= body@.subrange(pos + n + 1, body@.len() as int));
            assert(Seq::new(r@.len(), |i: int| r@[i]@) =~= before + seq![part@]);
        }
        pos = pos + n + 1;
    }
    proof {
        let rest = body@.subrange(pos as int, body@.len() as int);
        assert(Seq::new(r@.len(), |i: int| r@[i]@) + cluster_parts(rest) =~= Seq::new(r@.len(), |i: int| r@[i]@));
    }
    r
}

/// From `gs[0]`, `cs[0]`, `os[0]` on, the queued messages `ms` were released
/// in turn: step `i` released `ms[i]`, leaving the connection as `mids[i]`,
/// then dispatched its payload, leading to `gs[i + 1]`, `cs[i + 1]`,
/// `os[i + 1]`.
pub open spec fn released_in_turn(
    gs: Seq<Game>,
    cs: Seq<Connection>,
    os: Seq<Seq<Datagram>>,
    mids: Seq<Connection>,
    ms: Seq<ReliableMessage>,
    now: Tick,
) -> bool {
    &&& gs.len() == ms.len() + 1
    &&& cs.len() == ms.len() + 1
    &&& os.len() == ms.len() + 1
    &&& mids.len() == ms.len()
    &&& forall|i: int|
        0 <= i < ms.len() ==> {
            &&& pop_post(cs[i].packet_sequencer, mids[i].packet_sequencer, Some(#[trigger] ms[i]))
            &&& same_session(cs[i], mids[i])
            &&& dispatch_post(gs[i], gs[i + 1], mids[i], cs[i + 1], os[i], os[i + 1], ms[i]@, now)
        }
}

/// The outcome of a datagram `b` from `c0`'s peer at `now`: it was
/// dispatched, then the queued messages were released in id order and each
/// dispatched, until the next expected one was missing.
pub open spec fn on_data_post(
    g0: Game,
    g1: Game,
    c0: Connection,
    c1: Connection,
    o0: Seq<Datagram>,
    o1: Seq<Datagram>,
    b: Seq<u8>,
    now: Tick,
) -> bool {
    &&& !has_id(c1.packet_sequencer.reliable_queue@, c1.packet_sequencer.next_process_id)
    &&& exists|
        gs: Seq<Game>,
        cs: Seq<Connection>,
        os: Seq<Seq<Datagram>>,
        mids: Seq<Connection>,
        ms: Seq<ReliableMessage>,
    |
        #![trigger gs.last(), cs.last(), os.last(), mids.len(), ms.len()]
        {
            &&& dispatch_post(g0, gs[0], c0, cs[0], o0, os[0], b, now)
            &&& released_in_turn(gs, cs, os, mids, ms, now)
            &&& gs.last() == g1 && cs.last() == c1 && os.last() == o1
        }
}

impl Game {
    /// Dispatches one packet from `conn`'s peer, received at `now`.
    pub fn handle_packet(&mut self, conn: &mut Connection, packet: Packet, now: Tick, out: &mut Vec<Datagram>)
        requires
            old(self).wf(),
            old(conn).wf(),
            packet.wf(),
        ensures
            final(self).wf(),
            final(conn).wf(),
            final(conn).addr == old(conn).addr,
            final(conn).last_packet_time == old(conn).last_packet_time,
            backlog(final(conn).packet_sequencer.reliable_queue@) <= backlog(
                old(conn).packet_sequencer.reliable_queue@,
            ) + packet@.len(),
            dispatch_post(*old(self), *final(self), *old(conn), *final(conn), old(out)@, final(out)@, packet@, now),
        decreases packet.size,
    {
        if packet.size == 0 {
            return;
        }
        let kind = packet.data[0];
        if kind == 0x00 {
            if packet.size < 2 {
                return;
            }
            let sub = packet.data[1];
            if sub == 0x03 {
                if packet.size < 7 {
                    conn.send_disconnect(out);
                    return;
                }
                let bytes = packet_bytes(&packet);
                let id = read_u32_le(bytes, 2);
                out.push(Datagram { to: conn.addr, packet: Packet::new_reliable_ack(id) });
                let msg = ReliableMessage::new_at(id, slice_subrange(bytes, 6, packet.size), now);
                let ghost q0 = conn.packet_sequencer.reliable_queue@;
                conn.packet_sequencer.enqueue_received(msg);
                proof {
                    assert(out@.drop_last() =~= old(out)@);
                    let q1 = conn.packet_sequencer.reliable_queue@;
                    assert(q1.drop_last() =~= q0);
                    assert(le32(id) == packet@.subrange(2, 6));
                }
            } else if sub == 0x04 {
                if packet.size < 6 {
                    return;
                }
                let id = read_u32_le(packet_bytes(&packet), 2);
                conn.packet_sequencer.handle_ack(id);
                assert(le32(id) == packet@.subrange(2, 6));
            } else if sub == 0x05 {
                if packet.size < 6 {
                    return;
                }
                let ts = read_u32_le(packet_bytes(&packet), 2);
                let mut reply = Packet::empty();
                reply.write_u8(0x00);
                reply.write_u8(0x06);
                reply.write_u32(ts);
                reply.write_u32(now.value());
                out.push(Datagram { to: conn.addr, packet: reply });
                proof {
                    assert(reply@ =~= sync_response_frame(ts, now@ as u32));
                    assert(out@.drop_last() =~= old(out)@);
                    assert(le32(ts) == packet@.subrange(2, 6));
                }
            } else if sub == 0x07 {
                conn.connected = false;
            } else if sub == 0x0E {
                let body = slice_subrange(packet_bytes(&packet), 2, packet.size);
                let parts = split_cluster(body);
                let ghost ps = cluster_parts(body@);
                proof {
                    lemma_cluster_parts_fit(body@);
                    assert(ps.subrange(0, ps.len() as int) =~= ps);
                }
                let ghost mut gs: Seq<Game> = seq![*self];
                let ghost mut cs: Seq<Connection> = seq![*conn];
                let ghost mut os: Seq<Seq<Datagram>> = seq![out@];
                let mut i: usize = 0;
                while i < parts.len()
                    invariant
                        self.wf(),
                        conn.wf(),
                        conn.addr == old(conn).addr,
                        conn.last_packet_time == old(conn).last_packet_time,
                        packet.wf(),
                        body@ == packet@.subrange(2, packet@.len() as int),
                        body@.len() + 2 == packet@.len(),
                        i <= parts@.len(),
                        parts@.len() == ps.len(),
                        parts_weight(ps) <= body@.len(),
                        forall|k: int| 0 <= k < ps.len() ==> #[trigger] ps[k].len() < body@.len(),
                        forall|k: int| 0 <= k < parts@.len() ==> (#[trigger] parts@[k]).wf() && parts@[k]@ == ps[k],
                        backlog(conn.packet_sequencer.reliable_queue@) + parts_weight(ps.subrange(i as int, ps.len() as int))
                            <= backlog(old(conn).packet_sequencer.reliable_queue@) + parts_weight(ps),
                        dispatched_in_turn(gs, cs, os, ps, i as int, now, packet@.len()),
                        gs[0] == *old(self),
                        cs[0] == *old(conn),
                        os[0] == old(out)@,
                        gs.last() == *self,
                        cs.last() == *conn,
                        os.last() == out@,
                    decreases parts@.len() - i,
                {
                    let part = parts[i];
                    proof {
                        let tail = ps.subrange(i as int, ps.len() as int);
                        assert(tail.drop_first() =~= ps.subrange(i + 1, ps.len() as int));
                        assert(tail[0] == ps[i as int]);
                        assert(part.size < packet.size);
                    }
                    let ghost g_before = *self;
                    let ghost c_before = *conn;
                    let ghost o_before = out@;
                    self.handle_packet(conn, part, now, out);
                    proof {
                        let gs1 = gs.push(*self);
                        let cs1 = cs.push(*conn);
                        let os1 = os.push(out@);
                        assert forall|k: int| 0 <= k < i + 1 && ps[k].len() < packet@.len() implies dispatch_post(
                            gs1[k],
                            gs1[k + 1],
                            cs1[k],
                            cs1[k + 1],
                            os1[k],
                            os1[k + 1],
                            #[trigger] ps[k],
                            now,
                        ) by {
                            if k < i {
                                assert(gs1[k] == gs[k] && gs1[k + 1] == gs[k + 1]);
                                assert(cs1[k] == cs[k] && cs1[k + 1] == cs[k + 1]);
                                assert(os1[k] == os[k] && os1[k + 1] == os[k + 1]);
                            } else {
                                assert(gs1[k] == g_before && gs1[k + 1] == *self);
                                assert(cs1[k] == c_before && cs1[k + 1] == *conn);
                                assert(os1[k] == o_before && os1[k + 1] == out@);
                            }
                        }
                        gs = gs1;
                        cs = cs1;
                        os = os1;
                    }
                    i = i + 1;
                }
                proof {
                    assert(ps == cluster_parts(packet@.subrange(2, packet@.len() as int)));
                    assert(dispatched_in_turn(gs, cs, os, ps, ps.len() as int, now, packet@.len()));
                    assert(gs[0] == *old(self) && cs[0] == *old(conn) && os[0] == old(out)@);
                    assert(gs.last() == *self && cs.last() == *conn && os.last() == out@);
                    assert(packet@[0] == 0x00 && packet@[1] == 0x0E && packet@.len() >= 2);
                }
            }
        } else if kind == 0x01 {
            self.handle_arena_login(conn, now, out);
        } else if kind == 0x24 {
            self.handle_password(conn, &packet, now, out);
        }
    }

    /// Dispatches a datagram from `conn`'s peer, then releases and dispatches
    /// the queued reliable messages in id order until the next expected one
    /// is missing. Returns whether the session is still connected.
    pub fn on_data(&mut self, conn: &mut Connection, packet: Packet, now: Tick, out: &mut Vec<Datagram>) -> (r: bool)
        requires
            old(self).wf(),
            old(conn).wf(),
            packet.wf(),
        ensures
            final(self).wf(),
            final(conn).wf(),
            final(conn).addr == old(conn).addr,
            final(conn).last_packet_time == old(conn).last_packet_time,
            r == final(conn).connected,
            !has_id(
                final(conn).packet_sequencer.reliable_queue@,
                final(conn).packet_sequencer.next_process_id,
            ),
            on_data_post(*old(self), *final(self), *old(conn), *final(conn), old(out)@, final(out)@, packet@, now),
    {
        self.handle_packet(conn, packet, now, out);
        let ghost mut gs: Seq<Game> = seq![*self];
        let ghost mut cs: Seq<Connection> = seq![*conn];
        let ghost mut os: Seq<Seq<Datagram>> = seq![out@];
        let ghost mut mids: Seq<Connection> = Seq::empty();
        let ghost mut ms: Seq<ReliableMessage> = Seq::empty();
        loop
            invariant
                self.wf(),
                conn.wf(),
                conn.addr == old(conn).addr,
                conn.last_packet_time == old(conn).last_packet_time,
                dispatch_post(*old(self), gs[0], *old(conn), cs[0], old(out)@, os[0], packet@, now),
                released_in_turn(gs, cs, os, mids, ms, now),
                gs.last() == *self,
                cs.last() == *conn,
                os.last() == out@,
            ensures
                self.wf(),
                conn.wf(),
                conn.addr == old(conn).addr,
                conn.last_packet_time == old(conn).last_packet_time,
                !has_id(conn.packet_sequencer.reliable_queue@, conn.packet_sequencer.next_process_id),
                dispatch_post(*old(self), gs[0], *old(conn), cs[0], old(out)@, os[0], packet@, now),
                released_in_turn(gs, cs, os, mids, ms, now),
                gs.last() == *self,
                cs.last() == *conn,
                os.last() == out@,
            decreases backlog(conn.packet_sequencer.reliable_queue@),
        {
            let ghost q0 = conn.packet_sequencer.reliable_queue@;
            let ghost want = conn.packet_sequencer.next_process_id;
            let ghost c_before = *conn;
            match conn.packet_sequencer.pop_process_queue() {
                Some(m) => {
                    proof {
                        let i = choose|i: int|
                            {
                                &&& first_with_id(q0, want, i)
                                &&& m == q0[i]
                                &&& conn.packet_sequencer.reliable_queue@ == swap_removed(q0, i)
                                &&& conn.packet_sequencer.next_process_id == next_id(want)
                            };
                        lemma_backlog_swap_removed(q0, i);
                    }
                    let ghost mid = *conn;
                    let ghost g_before = *self;
                    let ghost o_before = out@;
                    let p = Packet { data: m.message, size: m.size };
                    self.handle_packet(conn, p, now, out);
                    proof {
                        let gs1 = gs.push(*self);
                        let cs1 = cs.push(*conn);
                        let os1 = os.push(out@);
                        let mids1 = mids.push(mid);
                        let ms1 = ms.push(m);
                        assert forall|k: int| 0 <= k < ms1.len() implies {
                            &&& pop_post(cs1[k].packet_sequencer, mids1[k].packet_sequencer, Some(#[trigger] ms1[k]))
                            &&& same_session(cs1[k], mids1[k])
                            &&& dispatch_post(gs1[k], gs1[k + 1], mids1[k], cs1[k + 1], os1[k], os1[k + 1], ms1[k]@, now)
                        } by {
                            if k < ms.len() {
                                assert(ms1[k] == ms[k] && mids1[k] == mids[k]);
                                assert(gs1[k] == gs[k] && gs1[k + 1] == gs[k + 1]);
                                assert(cs1[k] == cs[k] && cs1[k + 1] == cs[k + 1]);
                                assert(os1[k] == os[k] && os1[k + 1] == os[k + 1]);
                            } else {
                                assert(cs1[k] == c_before);
                                assert(gs1[k] == g_before && gs1[k + 1] == *self);
                                assert(cs1[k + 1] == *conn && mids1[k] == mid);
                                assert(os1[k] == o_before && os1[k + 1] == out@);
                            }
                        }
                        assert(gs1[0] == gs[0] && cs1[0] == cs[0] && os1[0] == os[0]);
                        gs = gs1;
                        cs = cs1;
                        os = os1;
                        mids = mids1;
                        ms = ms1;
                    }
                },
                None => {
                    break;
                },
            }
        }
        conn.connected
    }
}

/// Ticks of silence after which a connection is timed out (ten seconds).
pub const TIMEOUT_TICKS: i32 = 1000;

/// Players reported by the status endpoint; a fixed figure, not a count.
pub const REPORTED_PLAYER_COUNT: u32 = 69;

/// The leave notice for player `pid`.
pub open spec fn leave_frame(pid: PlayerId) -> Seq<u8> {
    seq![0x04u8] + le16(pid)
}

/// The handshake reply echoing `key`, with no billing.
pub open spec fn handshake_reply_frame(key: u32) -> Seq<u8> {
    seq![0x00u8, 0x02u8] + le32(key) + seq![0x00u8]
}

/// Datagram `b` is a connection handshake: `0x00 0x01`, a key and a version.
pub open spec fn is_handshake(b: Seq<u8>) -> bool {
    b.len() >= 8 && b[0] == 0x00 && b[1] == 0x01
}

/// `c` has been silent for at least `TIMEOUT_TICKS` at `now`.
pub open spec fn expired(c: Connection, now: Tick) -> bool {
    tick_diff(now@, c.last_packet_time@) >= 1000
}

/// Some connection in `cs` is from `addr`.
pub open spec fn has_addr(cs: Seq<Connection>, addr: PeerAddr) -> bool {
    exists|i: int| 0 <= i < cs.len() && cs[i].addr == addr
}

/// From connections `cs0` and game `g0` to server `s1`, connection `i` was
/// torn down: removed, told so, its player removed and the players left told
/// of it, which `out` holds.
pub open spec fn torn_down_from(cs0: Seq<Connection>, g0: Game, s1: Server, i: int, out: Seq<Datagram>) -> bool {
    let c = cs0[i];
    let m1 = s1.game.player_manager.players@;
    &&& 0 <= i < cs0.len()
    &&& s1.connections@ == cs0.remove(i)
    &&& m1 == g0.player_manager.players@.remove(c.player_id)
    &&& s1.game.arena_settings == g0.arena_settings
    &&& out.len() >= 1
    &&& carries(out[0], c.addr, disconnect_frame())
    &&& sent_to_each(
        seq![out[0]],
        out,
        recipients(m1, 1024, c.player_id as int),
        leave_frame(c.player_id),
    )
}

/// From `s0` to `s1`, connection `i` was torn down.
pub open spec fn torn_down(s0: Server, s1: Server, i: int, out: Seq<Datagram>) -> bool {
    torn_down_from(s0.connections@, s0.game, s1, i, out)
}

/// The status endpoint's answer to `request`: the reported player count and
/// the request's 4-byte stamp echoed; nothing for a request of another size.
pub fn ping_reply(request: &[u8]) -> (r: Option<[u8; 8]>)
    ensures
        r is Some <==> request@.len() == 4,
        r matches Some(b) ==> b@ == le32(REPORTED_PLAYER_COUNT) + request@,
{
    if request.len() != 4 {
        return None;
    }
    let count = crate::packet::u32_le_bytes(REPORTED_PLAYER_COUNT);
    let r = [count[0], count[1], count[2], count[3], request[0], request[1], request[2], request[3]];
    assert(r@ =~= le32(REPORTED_PLAYER_COUNT) + request@);
    Some(r)
}

/// The sessions of all remote addresses and the game they play.
pub struct Server {
    pub connections: Vec<Connection>,
    pub game: Game,
}

impl Server {
    /// Every connection is well formed, and no two share an address.
    pub open spec fn wf(&self) -> bool {
        &&& self.game.wf()
        &&& forall|i: int| 0 <= i < self.connections@.len() ==> #[trigger] self.connections@[i].wf()
        &&& forall|i: int, j: int|
            0 <= i < self.connections@.len() && 0 <= j < self.connections@.len()
                && #[trigger] self.connections@[i].addr == #[trigger] self.connections@[j].addr ==> i
                == j
    }

    /// A server with no connections, sending `arena_settings` on arena login.
    pub fn new(arena_settings: Vec<u8>) -> (r: Server)
        ensures
            r.wf(),
            r.connections@.len() == 0,
            r.game.player_manager.players@ == Map::<PlayerId, Player>::empty(),
            r.game.arena_settings@ == arena_settings@,
    {
        Server { connections: Vec::new(), game: Game::new(arena_settings) }
    }

    /// The position of the connection from `addr`, if any.
    pub fn find(&self, addr: PeerAddr) -> (r: Option<usize>)
        ensures
            r matches Some(i) ==> i < self.connections@.len() && self.connections@[i as int].addr
                == addr,
            r is None ==> !has_addr(self.connections@, addr),
    {
        let mut i: usize = 0;
        while i < self.connections.len()
            invariant
                i <= self.connections@.len(),
                forall|j: int| 0 <= j < i ==> self.connections@[j].addr != addr,
            decreases self.connections@.len() - i,
        {
            if self.connections[i].addr == addr {
                return Some(i);
            }
            i = i + 1;
        }
        None
    }

    fn tear_down(&mut self, i: usize) -> (out: Vec<Datagram>)
        requires
            old(self).wf(),
            i < old(self).connections@.len(),
        ensures
            final(self).wf(),
            torn_down(*old(self), *final(self), i as int, out@),
    {
        let mut out: Vec<Datagram> = Vec::new();
        let mut conn = self.connections.remove(i);
        let pid = conn.player_id;
        conn.send_disconnect(&mut out);
        self.game.player_manager.remove_player(pid);
        let notice = Packet::empty().concat_u8(0x04).concat_u16(pid);
        assert(notice@ =~= leave_frame(pid));
        let ghost first = out@;
        broadcast(&self.game.player_manager, pid, &notice, &mut out);
        proof {
            assert(first =~= seq![out@[0]]);
            assert forall|a: int, b: int|
                0 <= a < self.connections@.len() && 0 <= b < self.connections@.len()
                    && #[trigger] self.connections@[a].addr == #[trigger] self.connections@[b].addr
                implies a == b by {
                let a0 = if a < i { a } else { a + 1 };
                let b0 = if b < i { b } else { b + 1 };
                assert(self.connections@[a] == old(self).connections@[a0]);
                assert(self.connections@[b] == old(self).connections@[b0]);
            }
            assert forall|a: int| 0 <= a < self.connections@.len() implies #[trigger] self.connections@[a].wf() by {
                let a0 = if a < i { a } else { a + 1 };
                assert(self.connections@[a] == old(self).connections@[a0]);
            }
        }
        out
    }

    /// Tears down the connection from `addr`: removes it, tells its peer,
    /// removes its player and tells every remaining player it left. Nothing
    /// happens when there is no such connection.
    pub fn remove_connection(&mut self, addr: PeerAddr) -> (out: Vec<Datagram>)
        requires
            old(self).wf(),
        ensures
            final(self).wf(),
            !has_addr(old(self).connections@, addr) ==> *final(self) == *old(self) && out@.len() == 0,
            has_addr(old(self).connections@, addr) ==> exists|i: int|
                old(self).connections@[i].addr == addr && torn_down(*old(self), *final(self), i, out@),
    {
        match self.find(addr) {
            Some(i) => self.tear_down(i),
            None => Vec::new(),
        }
    }

    /// Times out the first connection, in table order, that has been silent
    /// for `TIMEOUT_TICKS` or more at `now`; at most one per call.
    pub fn timeout_connection(&mut self, now: Tick) -> (out: Vec<Datagram>)
        requires
            old(self).wf(),
        ensures
            final(self).wf(),
            (forall|i: int| 0 <= i < old(self).connections@.len() ==> !expired(#[trigger] old(self).connections@[i], now))
                ==> *final(self) == *old(self) && out@.len() == 0,
            forall|i: int|
                0 <= i < old(self).connections@.len() && expired(old(self).connections@[i], now) && (
                forall|j: int| 0 <= j < i ==> !expired(#[trigger] old(self).connections@[j], now))
                    ==> torn_down(*old(self), *final(self), i, out@),
    {
        let mut i: usize = 0;
        while i < self.connections.len()
            invariant
                *self == *old(self),
                old(self).wf(),
                i <= self.connections@.len(),
                forall|j: int| 0 <= j < i ==> !expired(#[trigger] self.connections@[j], now),
            decreases self.connections@.len() - i,
        {
            if now.diff(&self.connections[i].last_packet_time) >= TIMEOUT_TICKS {
                let out = self.tear_down(i);
                proof {
                    assert forall|k: int|
                        0 <= k < old(self).connections@.len() && expired(old(self).connections@[k], now) && (
                        forall|j: int| 0 <= j < k ==> !expired(#[trigger] old(self).connections@[j], now))
                        implies k == i by {
                        if k < i {
                        } else if k > i {
                            assert(!expired(old(self).connections@[i as int], now));
                        }
                    }
                }
                return out;
            }
            i = i + 1;
        }
        Vec::new()
    }

    /// Handles datagram `bytes` from `src`, received at `now`. From an
    /// unknown address only a handshake counts: it is answered with the key
    /// and opens a connection. From a known one it stamps the activity time
    /// and is dispatched; a session that ends is torn down.
    pub fn on_datagram(&mut self, src: PeerAddr, bytes: &[u8], now: Tick) -> (out: Vec<Datagram>)
        requires
            old(self).wf(),
            bytes@.len() <= MAX_PACKET_SIZE,
        ensures
            final(self).wf(),
            !has_addr(old(self).connections@, src) && !is_handshake(bytes@) ==> *final(self)
                == *old(self) && out@.len() == 0,
            !has_addr(old(self).connections@, src) && is_handshake(bytes@) ==> {
                &&& final(self).game == old(self).game
                &&& final(self).connections@.drop_last() == old(self).connections@
                &&& final(self).connections@.len() == old(self).connections@.len() + 1
                &&& final(self).connections@.last().addr == src
                &&& final(self).connections@.last().last_packet_time == now
                &&& final(self).connections@.last().player_id == INVALID_PLAYER_ID
                &&& final(self).connections@.last().connected
                &&& final(self).connections@.last().packet_sequencer.next_process_id == 0
                &&& final(self).connections@.last().packet_sequencer.next_reliable_gen_id == 0
                &&& final(self).connections@.last().packet_sequencer.reliable_sent@.len() == 0
                &&& final(self).connections@.last().packet_sequencer.reliable_queue@.len() == 0
                &&& final(self).connections@.last().packet_sequencer.outbound_chunked is None
                &&& exists|key: u32|
                    le32(key) == bytes@.subrange(2, 6) && sent_one(
                        Seq::empty(),
                        out@,
                        src,
                        handshake_reply_frame(key),
                    )
            },
            has_addr(old(self).connections@, src) ==> {
                let i = choose|i: int|
                    0 <= i < old(self).connections@.len() && old(self).connections@[i].addr == src;
                let stamped = Connection { last_packet_time: now, ..old(self).connections@[i] };
                exists|g1: Game, c1: Connection, o1: Seq<Datagram>|
                    #![trigger on_data_post(old(self).game, g1, stamped, c1, Seq::<Datagram>::empty(), o1, bytes@, now)]
                    {
                        &&& on_data_post(old(self).game, g1, stamped, c1, Seq::<Datagram>::empty(), o1, bytes@, now)
                        &&& c1.connected ==> final(self).game == g1 && final(self).connections@
                            == old(self).connections@.update(i, c1) && out@ == o1
                        &&& !c1.connected ==> out@.len() >= o1.len() && out@.subrange(0, o1.len() as int)
                            == o1 && torn_down_from(
                            old(self).connections@.update(i, c1),
                            g1,
                            *final(self),
                            i,
                            out@.subrange(o1.len() as int, out@.len() as int),
                        )
                    }
            },
    {
        let mut out: Vec<Datagram> = Vec::new();
        match self.find(src) {
            None => {
                if bytes.len() >= 8 && bytes[0] == 0x00 && bytes[1] == 0x01 {
                    let key = read_u32_le(bytes, 2);
                    let reply = Packet::empty().concat_u8(0x00).concat_u8(0x02).concat_u32(key)
                        .concat_u8(0x00);
                    assert(reply@ =~= handshake_reply_frame(key));
                    out.push(Datagram { to: src, packet: reply });
                    self.connections.push(Connection::new(src, now));
                    proof {
                        assert(out@.drop_last() =~= Seq::<Datagram>::empty());
                        assert(self.connections@.drop_last() =~= old(self).connections@);
                        assert(le32(key) == bytes@.subrange(2, 6));
                        assert forall|a: int, b: int|
                            0 <= a < self.connections@.len() && 0 <= b < self.connections@.len()
                                && #[trigger] self.connections@[a].addr == #[trigger] self.connections@[b].addr
                            implies a == b by {
                            if a < old(self).connections@.len() && b < old(self).connections@.len() {
                                assert(self.connections@[a] == old(self).connections@[a]);
                                assert(self.connections@[b] == old(self).connections@[b]);
                            } else if a < old(self).connections@.len() {
                                assert(self.connections@[a] == old(self).connections@[a]);
                            } else if b < old(self).connections@.len() {
                                assert(self.connections@[b] == old(self).connections@[b]);
                            }
                        }
                        assert forall|a: int| 0 <= a < self.connections@.len() implies #[trigger] self.connections@[a].wf() by {
                            if a < old(self).connections@.len() {
                                assert(self.connections@[a] == old(self).connections@[a]);
                            }
                        }
                    }
                }
                out
            },
            Some(i) => {
                let ghost stamped = Connection { last_packet_time: now, ..old(self).connections@[i as int] };
                let mut conn = self.connections.remove(i);
                conn.last_packet_time = now;
                assert(old(self).connections@[i as int].wf());
                assert(conn == stamped);
                let packet = Packet::new(bytes);
                let alive = self.game.on_data(&mut conn, packet, now, &mut out);
                self.connections.insert(i, conn);
                let ghost g1 = self.game;
                let ghost o1 = out@;
                proof {
                    let k = choose|k: int|
                        0 <= k < old(self).connections@.len() && old(self).connections@[k].addr == src;
                    assert(old(self).connections@[k].addr == old(self).connections@[i as int].addr);
                    assert(k == i);
                    assert(self.connections@ =~= old(self).connections@.update(i as int, conn));
                    assert forall|a: int, b: int|
                        0 <= a < self.connections@.len() && 0 <= b < self.connections@.len()
                            && #[trigger] self.connections@[a].addr == #[trigger] self.connections@[b].addr
                        implies a == b by {
                        assert(self.connections@[a].addr == old(self).connections@[a].addr);
                        assert(self.connections@[b].addr == old(self).connections@[b].addr);
                    }
                    assert forall|a: int| 0 <= a < self.connections@.len() implies #[trigger] self.connections@[a].wf() by {
                        if a != i {
                            assert(self.connections@[a] == old(self).connections@[a]);
                        }
                    }
                }
                if !alive {
                    let mut notices = self.tear_down(i);
                    let ghost rest = notices@;
                    out.append(&mut notices);
                    proof {
                        assert(out@.subrange(0, o1.len() as int) =~= o1);
                        assert(out@.subrange(o1.len() as int, out@.len() as int) =~= rest);
                    }
                }
                out
            },
        }
    }
}

} // verus!
