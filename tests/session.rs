use arena_server::clock::Tick;
use arena_server::player::{PeerAddr, INVALID_PLAYER_ID};
use arena_server::session::{enter_record, ping_reply, split_cluster, Connection, Datagram, Server};

fn addr(n: u16) -> PeerAddr {
    PeerAddr { ip: 0x0A00_0000 + n as u128, port: 4000 + n, v6: false }
}

fn bytes(d: &Datagram) -> Vec<u8> {
    d.packet.data[..d.packet.size].to_vec()
}

fn reliable(id: u32, payload: &[u8]) -> Vec<u8> {
    let mut v = vec![0x00, 0x03];
    v.extend_from_slice(&id.to_le_bytes());
    v.extend_from_slice(payload);
    v
}

fn password(name: &str) -> Vec<u8> {
    let mut v = vec![0x24, 0x00];
    let mut field = [0u8; 32];
    field[..name.len()].copy_from_slice(name.as_bytes());
    v.extend_from_slice(&field);
    v.extend_from_slice(&[0u8; 32]);
    v
}

const HANDSHAKE: [u8; 8] = [0x00, 0x01, 0x44, 0x33, 0x22, 0x11, 0x01, 0x00];

fn login(srv: &mut Server, who: PeerAddr, name: &str, now: u32) -> Vec<Datagram> {
    srv.on_datagram(who, &HANDSHAKE, Tick::new(now));
    srv.on_datagram(who, &reliable(0, &password(name)), Tick::new(now))
}

#[test]
fn handshake_echoes_key_and_admits() {
    let mut srv = Server::new(Vec::new());
    let out = srv.on_datagram(addr(1), &HANDSHAKE, Tick::new(100));
    assert_eq!(out.len(), 1);
    assert_eq!(out[0].to, addr(1));
    assert_eq!(bytes(&out[0]), vec![0x00, 0x02, 0x44, 0x33, 0x22, 0x11, 0x00]);
    assert_eq!(srv.connections.len(), 1);
    let c = &srv.connections[0];
    assert_eq!(c.addr, addr(1));
    assert_eq!(c.player_id, INVALID_PLAYER_ID);
    assert_eq!(c.last_packet_time.value(), 100);
    assert!(c.connected);
}

#[test]
fn unknown_address_needs_handshake() {
    let mut srv = Server::new(Vec::new());
    assert!(srv.on_datagram(addr(1), &[0x00, 0x05, 1, 2, 3, 4], Tick::new(0)).is_empty());
    assert!(srv.on_datagram(addr(1), &[0x00, 0x01, 1, 2, 3, 4, 5], Tick::new(0)).is_empty());
    assert!(srv.on_datagram(addr(1), &[], Tick::new(0)).is_empty());
    assert!(srv.connections.is_empty());
}

#[test]
fn end_to_end_login() {
    let mut srv = Server::new(Vec::new());
    let first = srv.on_datagram(addr(1), &HANDSHAKE, Tick::new(10));
    assert_eq!(bytes(&first[0]), vec![0x00, 0x02, 0x44, 0x33, 0x22, 0x11, 0x00]);
    let out = srv.on_datagram(addr(1), &reliable(0, &password("alice")), Tick::new(11));
    assert_eq!(out.len(), 3);
    assert!(out.iter().all(|d| d.to == addr(1)));
    assert_eq!(bytes(&out[0]), vec![0x00, 0x04, 0, 0, 0, 0]);
    assert_eq!(
        bytes(&out[1]),
        vec![0x00, 0x03, 0, 0, 0, 0, 0x34, 0x28, 0x00, 0x86, 0x14, 0xB6, 0xC9]
    );
    let accept = bytes(&out[2]);
    assert_eq!(accept.len(), 6 + 36);
    assert_eq!(&accept[..6], &[0x00, 0x03, 1, 0, 0, 0]);
    assert_eq!(&accept[6..12], &[0x0A, 0x00, 134, 0, 0, 0]);
    assert_eq!(&accept[12..16], &[0, 0, 0, 0]);
    assert_eq!(&accept[16..20], &[0, 0, 0, 0]);
    assert!(accept[20..].iter().all(|&b| b == 0));
    let c = &srv.connections[0];
    assert_eq!(c.player_id, 0);
    assert_eq!(c.packet_sequencer.next_process_id, 1);
    assert_eq!(c.packet_sequencer.reliable_sent.len(), 2);
    let p = srv.game.player_manager.get_player_by_id(0).unwrap();
    assert_eq!(p.addr, addr(1));
    assert!(p.name.starts_with("alice"));
    assert_eq!(p.name.len(), 32);
}

#[test]
fn short_password_disconnects() {
    let mut srv = Server::new(Vec::new());
    srv.on_datagram(addr(1), &HANDSHAKE, Tick::new(0));
    let out = srv.on_datagram(addr(1), &reliable(0, &[0x24, 0x00, 1, 2]), Tick::new(0));
    assert_eq!(bytes(&out[0]), vec![0x00, 0x04, 0, 0, 0, 0]);
    assert_eq!(bytes(&out[1]), vec![0x00, 0x07]);
    assert!(srv.connections.is_empty());
    assert!(srv.game.player_manager.players.is_empty());
}

#[test]
fn invalid_utf8_name_disconnects() {
    let mut srv = Server::new(Vec::new());
    srv.on_datagram(addr(1), &HANDSHAKE, Tick::new(0));
    let mut pw = password("x");
    pw[2] = 0xFF;
    let out = srv.on_datagram(addr(1), &reliable(0, &pw), Tick::new(0));
    assert_eq!(bytes(&out[1]), vec![0x00, 0x07]);
    assert!(srv.connections.is_empty());
}

#[test]
fn arena_login_sends_the_sequence() {
    let settings: Vec<u8> = (0..600).map(|i| (i % 256) as u8).collect();
    let mut srv = Server::new(settings.clone());
    login(&mut srv, addr(1), "alice", 0);
    let out = srv.on_datagram(addr(1), &reliable(1, &[0x01]), Tick::new(1));
    let all: Vec<Vec<u8>> = out.iter().map(bytes).collect();
    assert_eq!(all.len(), 7);
    assert!(out.iter().all(|d| d.to == addr(1)));
    assert_eq!(all[0], vec![0x00, 0x04, 1, 0, 0, 0]);
    assert_eq!(all[1], reliable(2, &[0x01, 0x00, 0x00]));
    let mut chunk1 = vec![0x00, 0x08];
    chunk1.extend_from_slice(&settings[..512]);
    assert_eq!(all[2], reliable(3, &chunk1));
    let mut chunk2 = vec![0x00, 0x09];
    chunk2.extend_from_slice(&settings[512..]);
    assert_eq!(all[3], reliable(4, &chunk2));
    let mut map = vec![0x29, b'p', b'u', b'b', b'.', b'l', b'v', b'l'];
    map.extend_from_slice(&[0; 9]);
    map.extend_from_slice(&1889723958u32.to_le_bytes());
    map.extend_from_slice(&58992u32.to_le_bytes());
    assert_eq!(all[4], reliable(5, &map));
    let mut record = vec![0x03, 0x08, 0x00];
    record.extend_from_slice(b"alice");
    record.resize(51, 0);
    record.extend_from_slice(&[0, 0]);
    record.resize(64, 0);
    assert_eq!(all[5], reliable(6, &record));
    assert_eq!(all[6], reliable(7, &[0x02]));
}

#[test]
fn arena_login_without_player_disconnects() {
    let mut srv = Server::new(Vec::new());
    srv.on_datagram(addr(1), &HANDSHAKE, Tick::new(0));
    let out = srv.on_datagram(addr(1), &reliable(0, &[0x01]), Tick::new(0));
    assert_eq!(bytes(&out[1]), vec![0x00, 0x07]);
    assert!(srv.connections.is_empty());
}

#[test]
fn arena_login_announces_to_others() {
    let mut srv = Server::new(Vec::new());
    login(&mut srv, addr(1), "alice", 0);
    login(&mut srv, addr(2), "bob", 0);
    let out = srv.on_datagram(addr(2), &reliable(1, &[0x01]), Tick::new(0));
    let last = out.last().unwrap();
    assert_eq!(last.to, addr(1));
    let mut record = vec![0x03, 0x08, 0x00];
    record.extend_from_slice(b"bob");
    record.resize(51, 0);
    record.extend_from_slice(&[1, 0]);
    record.resize(64, 0);
    assert_eq!(bytes(last), record);
    // Bob's enter list holds both players, alice first.
    let list = out.iter().find(|d| d.packet.size == 6 + 128).unwrap();
    assert_eq!(&bytes(list)[6..9], &[0x03, 0x08, 0x00]);
    assert_eq!(&bytes(list)[6 + 51..6 + 53], &[0, 0]);
    assert_eq!(&bytes(list)[6 + 64 + 51..6 + 64 + 53], &[1, 0]);
}

#[test]
fn enter_list_packs_eight_records_per_message() {
    let mut srv = Server::new(Vec::new());
    for i in 0..9u16 {
        login(&mut srv, addr(i + 1), "p", 0);
    }
    let out = srv.on_datagram(addr(1), &reliable(1, &[0x01]), Tick::new(0));
    let sizes: Vec<usize> = out.iter().filter(|d| d.to == addr(1)).map(|d| d.packet.size).collect();
    assert!(sizes.contains(&(6 + 512)));
    assert!(sizes.contains(&(6 + 64)));
    assert_eq!(out.iter().filter(|d| d.to != addr(1)).count(), 8);
}

#[test]
fn enter_record_truncates_long_names() {
    let r = enter_record(&String::from("abcdefghijklmnopqrstuvwxyz"), 0x0102);
    let b = r.data[..r.size].to_vec();
    assert_eq!(b.len(), 64);
    assert_eq!(&b[3..23], b"abcdefghijklmnopqrst");
    assert_eq!(b[23], 0);
    assert_eq!(&b[51..53], &[0x02, 0x01]);
}

#[test]
fn reliable_ack_and_sync() {
    let mut srv = Server::new(Vec::new());
    srv.on_datagram(addr(1), &HANDSHAKE, Tick::new(0));
    let out = srv.on_datagram(addr(1), &[0x00, 0x05, 0x10, 0, 0, 0], Tick::new(500));
    assert_eq!(out.len(), 1);
    let mut want = vec![0x00, 0x06, 0x10, 0, 0, 0];
    want.extend_from_slice(&500u32.to_le_bytes());
    assert_eq!(bytes(&out[0]), want);
    assert!(srv.on_datagram(addr(1), &[0x00, 0x05, 1], Tick::new(0)).is_empty());
    assert_eq!(srv.connections.len(), 1);
}

#[test]
fn out_of_order_reliables_are_released_in_order() {
    let mut srv = Server::new(Vec::new());
    srv.on_datagram(addr(1), &HANDSHAKE, Tick::new(0));
    let out = srv.on_datagram(addr(1), &reliable(1, &[0x00, 0x05, 7, 0, 0, 0]), Tick::new(9));
    assert_eq!(out.len(), 1);
    assert_eq!(bytes(&out[0]), vec![0x00, 0x04, 1, 0, 0, 0]);
    let out = srv.on_datagram(addr(1), &reliable(0, &[0x00, 0x05, 8, 0, 0, 0]), Tick::new(9));
    let all: Vec<Vec<u8>> = out.iter().map(bytes).collect();
    assert_eq!(all.len(), 3);
    assert_eq!(all[0], vec![0x00, 0x04, 0, 0, 0, 0]);
    assert_eq!(&all[1][..6], &[0x00, 0x06, 8, 0, 0, 0]);
    assert_eq!(&all[2][..6], &[0x00, 0x06, 7, 0, 0, 0]);
    assert!(srv.connections[0].packet_sequencer.reliable_queue.is_empty());
}

#[test]
fn short_reliable_disconnects() {
    let mut srv = Server::new(Vec::new());
    srv.on_datagram(addr(1), &HANDSHAKE, Tick::new(0));
    let out = srv.on_datagram(addr(1), &[0x00, 0x03, 0, 0, 0, 0], Tick::new(0));
    assert_eq!(bytes(&out[0]), vec![0x00, 0x07]);
    assert!(srv.connections.is_empty());
}

#[test]
fn ack_retires_sent_message() {
    let mut srv = Server::new(Vec::new());
    login(&mut srv, addr(1), "a", 0);
    assert_eq!(srv.connections[0].packet_sequencer.reliable_sent.len(), 2);
    let out = srv.on_datagram(addr(1), &[0x00, 0x04, 1, 0, 0, 0], Tick::new(0));
    assert!(out.is_empty());
    let sent = &srv.connections[0].packet_sequencer.reliable_sent;
    assert_eq!(sent.len(), 1);
    assert_eq!(sent[0].id, 0);
}

#[test]
fn cluster_dispatches_each_part() {
    let mut srv = Server::new(Vec::new());
    login(&mut srv, addr(1), "a", 0);
    login(&mut srv, addr(2), "b", 0);
    let cluster = [0x00, 0x0E, 6, 0x00, 0x05, 3, 0, 0, 0, 2, 0x00, 0x07];
    let out = srv.on_datagram(addr(1), &cluster, Tick::new(4));
    assert_eq!(&bytes(&out[0])[..6], &[0x00, 0x06, 3, 0, 0, 0]);
    assert_eq!(out[1].to, addr(1));
    assert_eq!(bytes(&out[1]), vec![0x00, 0x07]);
    assert_eq!(out[2].to, addr(2));
    assert_eq!(bytes(&out[2]), vec![0x04, 0, 0]);
    assert_eq!(out.len(), 3);
    assert_eq!(srv.connections.len(), 1);
    assert!(srv.game.player_manager.get_player_by_id(0).is_none());
}

#[test]
fn cluster_drops_truncated_tail() {
    let mut srv = Server::new(Vec::new());
    srv.on_datagram(addr(1), &HANDSHAKE, Tick::new(0));
    let cluster = [0x00, 0x0E, 6, 0x00, 0x05, 3, 0, 0, 0, 9, 0x00, 0x07];
    let out = srv.on_datagram(addr(1), &cluster, Tick::new(4));
    assert_eq!(out.len(), 1);
    assert_eq!(srv.connections.len(), 1);
}

#[test]
fn disconnect_packet_tears_down() {
    let mut srv = Server::new(Vec::new());
    login(&mut srv, addr(1), "a", 0);
    login(&mut srv, addr(2), "b", 0);
    let out = srv.on_datagram(addr(2), &[0x00, 0x07], Tick::new(0));
    assert_eq!(out.len(), 2);
    assert_eq!(out[0].to, addr(2));
    assert_eq!(bytes(&out[0]), vec![0x00, 0x07]);
    assert_eq!(out[1].to, addr(1));
    assert_eq!(bytes(&out[1]), vec![0x04, 1, 0]);
    assert_eq!(srv.connections.len(), 1);
    // The freed id goes to the next login.
    login(&mut srv, addr(3), "c", 0);
    assert_eq!(srv.connections[1].player_id, 1);
}

#[test]
fn timeout_evicts_silent_connection() {
    let mut srv = Server::new(Vec::new());
    login(&mut srv, addr(1), "a", 100);
    login(&mut srv, addr(2), "b", 600);
    assert!(srv.timeout_connection(Tick::new(1099)).is_empty());
    let out = srv.timeout_connection(Tick::new(1101));
    assert_eq!(out.len(), 2);
    assert_eq!(out[0].to, addr(1));
    assert_eq!(bytes(&out[0]), vec![0x00, 0x07]);
    assert_eq!(out[1].to, addr(2));
    assert_eq!(bytes(&out[1]), vec![0x04, 0, 0]);
    assert_eq!(srv.connections.len(), 1);
    assert_eq!(srv.connections[0].addr, addr(2));
    assert!(srv.timeout_connection(Tick::new(1101)).is_empty());
}

#[test]
fn timeout_evicts_one_per_pass() {
    let mut srv = Server::new(Vec::new());
    login(&mut srv, addr(1), "a", 0);
    login(&mut srv, addr(2), "b", 0);
    srv.timeout_connection(Tick::new(5000));
    assert_eq!(srv.connections.len(), 1);
    srv.timeout_connection(Tick::new(5000));
    assert!(srv.connections.is_empty());
}

#[test]
fn timeout_across_wraparound() {
    let mut srv = Server::new(Vec::new());
    srv.on_datagram(addr(1), &HANDSHAKE, Tick::new(0x7FFF_FF00));
    assert!(srv.timeout_connection(Tick::new(100)).is_empty());
    assert_eq!(srv.timeout_connection(Tick::new(1000)).len(), 1);
}

#[test]
fn remove_unknown_connection_does_nothing() {
    let mut srv = Server::new(Vec::new());
    assert!(srv.remove_connection(addr(9)).is_empty());
    assert!(srv.find(addr(9)).is_none());
}

#[test]
fn connection_starts_fresh() {
    let c = Connection::new(addr(4), Tick::new(12));
    assert_eq!(c.player_id, INVALID_PLAYER_ID);
    assert!(c.connected);
    assert_eq!(c.packet_sequencer.next_reliable_gen_id, 0);
}

#[test]
fn ping_echoes_stamp() {
    assert_eq!(ping_reply(&[1, 2, 3, 4]), Some([69, 0, 0, 0, 1, 2, 3, 4]));
    assert_eq!(ping_reply(&[1, 2, 3]), None);
    assert_eq!(ping_reply(&[1, 2, 3, 4, 5]), None);
}

#[test]
fn split_cluster_cuts_parts() {
    let parts = split_cluster(&[2, 9, 8, 0, 1, 7, 5, 1]);
    let got: Vec<Vec<u8>> = parts.iter().map(|p| p.data[..p.size].to_vec()).collect();
    assert_eq!(got, vec![vec![9, 8], vec![], vec![7]]);
    assert!(split_cluster(&[]).is_empty());
    assert!(split_cluster(&[3, 1, 2]).is_empty());
}

#[test]
fn short_ack_is_ignored() {
    let mut srv = Server::new(Vec::new());
    login(&mut srv, addr(1), "a", 0);
    let out = srv.on_datagram(addr(1), &[0x00, 0x04, 1, 0], Tick::new(0));
    assert!(out.is_empty());
    assert_eq!(srv.connections.len(), 1);
    assert!(srv.connections[0].connected);
    assert_eq!(srv.connections[0].packet_sequencer.reliable_sent.len(), 2);
}

#[test]
fn sync_echoes_stamp_as_sent() {
    let mut srv = Server::new(Vec::new());
    srv.on_datagram(addr(1), &HANDSHAKE, Tick::new(0));
    let out = srv.on_datagram(addr(1), &[0x00, 0x05, 0x10, 0, 0, 0x80], Tick::new(7));
    assert_eq!(bytes(&out[0]), vec![0x00, 0x06, 0x10, 0, 0, 0x80, 7, 0, 0, 0]);
}

#[test]
fn handshake_connection_starts_fresh() {
    let mut srv = Server::new(Vec::new());
    srv.on_datagram(addr(1), &HANDSHAKE, Tick::new(0));
    let s = &srv.connections[0].packet_sequencer;
    assert_eq!(s.next_process_id, 0);
    assert_eq!(s.next_reliable_gen_id, 0);
    assert!(s.reliable_sent.is_empty() && s.reliable_queue.is_empty());
    assert!(s.outbound_chunked.is_none());
}

#[test]
fn login_records_sent_messages_under_their_ids() {
    let mut srv = Server::new(Vec::new());
    login(&mut srv, addr(1), "a", 0);
    let sent = &srv.connections[0].packet_sequencer.reliable_sent;
    assert_eq!(sent[0].id, 0);
    assert_eq!(sent[0].message[..sent[0].size].to_vec(), vec![0x34, 0x28, 0x00, 0x86, 0x14, 0xB6, 0xC9]);
    assert_eq!(sent[1].id, 1);
    assert_eq!(sent[1].size, 36);
    assert_eq!(&sent[1].message[..6], &[0x0A, 0x00, 0x86, 0, 0, 0]);
}
