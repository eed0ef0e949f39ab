use arena_server::clock::Tick;
use arena_server::sequencer::{OutboundChunkedPacket, PacketSequencer, ReliableMessage};

fn payload(m: &ReliableMessage) -> Vec<u8> {
    m.message[..m.size].to_vec()
}

#[test]
fn reliable_message_holds_payload() {
    let m = ReliableMessage::new_at(7, &[1, 2, 3], Tick::new(10));
    assert_eq!(m.id, 7);
    assert_eq!(m.timestamp.value(), 10);
    assert_eq!(payload(&m), vec![1, 2, 3]);
    let n = ReliableMessage::new(8, &[4]);
    assert_eq!(n.id, 8);
    assert_eq!(payload(&n), vec![4]);
}

#[test]
fn drain_releases_in_id_order() {
    let mut s = PacketSequencer::new();
    let t = Tick::new(0);
    for id in [2u32, 0, 1] {
        s.enqueue_received(ReliableMessage::new_at(id, &[id as u8], t));
    }
    let mut got = Vec::new();
    while let Some(m) = s.pop_process_queue() {
        got.push(m.id);
        assert_eq!(payload(&m), vec![m.id as u8]);
    }
    assert_eq!(got, vec![0, 1, 2]);
    assert!(s.reliable_queue.is_empty());
    assert_eq!(s.next_process_id, 3);
}

#[test]
fn drain_stops_at_missing_id() {
    let mut s = PacketSequencer::new();
    let t = Tick::new(0);
    for id in [0u32, 2] {
        s.enqueue_received(ReliableMessage::new_at(id, &[], t));
    }
    let first = s.pop_process_queue().map(|m| m.id);
    assert_eq!(first, Some(0));
    assert!(s.pop_process_queue().is_none());
    assert_eq!(s.reliable_queue.len(), 1);
    assert_eq!(s.reliable_queue[0].id, 2);
    assert_eq!(s.next_process_id, 1);
}

#[test]
fn process_id_wraps() {
    let mut s = PacketSequencer::new();
    s.next_process_id = u32::MAX;
    s.enqueue_received(ReliableMessage::new_at(u32::MAX, &[], Tick::new(0)));
    assert!(s.pop_process_queue().is_some());
    assert_eq!(s.next_process_id, 0);
}

#[test]
fn send_reliable_frames_and_records() {
    let mut s = PacketSequencer::new();
    let p = s.send_reliable(&[0xAA, 0xBB], Tick::new(3)).unwrap();
    assert_eq!(p.data[..p.size].to_vec(), vec![0, 3, 0, 0, 0, 0, 0xAA, 0xBB]);
    assert_eq!(s.next_reliable_gen_id, 1);
    assert_eq!(s.reliable_sent.len(), 1);
    assert_eq!(s.reliable_sent[0].id, 0);
    assert_eq!(payload(&s.reliable_sent[0]), vec![0xAA, 0xBB]);
}

#[test]
fn send_reliable_refuses_oversize() {
    let mut s = PacketSequencer::new();
    assert!(s.send_reliable(&[0u8; 515], Tick::new(0)).is_none());
    assert!(s.reliable_sent.is_empty());
    assert_eq!(s.next_reliable_gen_id, 0);
    assert!(s.send_reliable(&[0u8; 514], Tick::new(0)).is_some());
}

#[test]
fn ack_removes_only_the_middle_message() {
    let mut s = PacketSequencer::new();
    let t = Tick::new(0);
    s.send_reliable(&[10], t).unwrap();
    s.send_reliable(&[11, 11], t).unwrap();
    s.send_reliable(&[12, 12, 12], t).unwrap();
    s.handle_ack(1);
    let mut left: Vec<(u32, Vec<u8>)> = s.reliable_sent.iter().map(|m| (m.id, payload(m))).collect();
    left.sort();
    assert_eq!(left, vec![(0, vec![10]), (2, vec![12, 12, 12])]);
}

#[test]
fn ack_of_unknown_id_changes_nothing() {
    let mut s = PacketSequencer::new();
    s.send_reliable(&[1], Tick::new(0)).unwrap();
    s.handle_ack(99);
    assert_eq!(s.reliable_sent.len(), 1);
}

#[test]
fn increment_id_wraps() {
    let mut s = PacketSequencer::new();
    s.next_reliable_gen_id = u32::MAX;
    s.increment_id();
    assert_eq!(s.next_reliable_gen_id, 0);
}

#[test]
fn outbound_chunked_remaining() {
    let c = OutboundChunkedPacket::new(&[1, 2, 3], 4);
    assert_eq!(c.get_remaining(), 3);
}

fn run_transfer(n: usize, window: usize) {
    let data: Vec<u8> = (0..n).map(|i| (i * 7 % 251) as u8).collect();
    let mut s = PacketSequencer::new();
    s.start_chunked(&data, window);
    let mut rebuilt = Vec::new();
    let mut fragments = 0;
    while let Some(p) = s.next_packet(Tick::new(0)) {
        fragments += 1;
        let bytes = &p.data[..p.size];
        assert_eq!(&bytes[..2], &[0x00, 0x0A]);
        let len = u32::from_le_bytes([bytes[2], bytes[3], bytes[4], bytes[5]]) as usize;
        assert_eq!(len, p.size - 6);
        assert!(len <= 514);
        rebuilt.extend_from_slice(&bytes[6..]);
        let id = s.reliable_sent.last().unwrap().id;
        assert!(s.outbound_chunked.is_some());
        s.handle_ack(id);
        if rebuilt.len() < n {
            assert!(s.outbound_chunked.is_some());
        }
    }
    assert_eq!(fragments, (n + 513) / 514);
    assert_eq!(rebuilt, data);
    assert!(s.outbound_chunked.is_none());
    assert!(s.reliable_sent.is_empty());
}

#[test]
fn chunked_transfer_reassembles() {
    run_transfer(1200, 1);
    run_transfer(514, 2);
    run_transfer(515, 3);
    run_transfer(1, 1);
    run_transfer(5000, 4);
}

#[test]
fn chunked_transfer_of_nothing_is_dropped() {
    let mut s = PacketSequencer::new();
    s.start_chunked(&[], 2);
    assert!(s.next_packet(Tick::new(0)).is_none());
    assert!(s.outbound_chunked.is_none());
}

#[test]
fn chunked_window_limits_in_flight() {
    let data = vec![1u8; 2000];
    let mut s = PacketSequencer::new();
    s.start_chunked(&data, 2);
    assert!(s.next_packet(Tick::new(0)).is_some());
    assert!(s.next_packet(Tick::new(0)).is_some());
    assert!(s.next_packet(Tick::new(0)).is_none());
    assert!(s.outbound_chunked.is_some());
    s.handle_ack(0);
    assert!(s.next_packet(Tick::new(0)).is_some());
    assert!(s.next_packet(Tick::new(0)).is_none());
    s.handle_ack(1);
    s.handle_ack(2);
    let last = s.next_packet(Tick::new(0)).unwrap();
    assert_eq!(last.size, 6 + 2000 - 3 * 514);
    assert!(s.next_packet(Tick::new(0)).is_none());
    assert!(s.outbound_chunked.is_some());
    s.handle_ack(3);
    assert!(s.outbound_chunked.is_none());
}
