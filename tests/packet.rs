use arena_server::clock::Tick;
use arena_server::packet::{read_u32_le, Packet, MAX_PACKET_SIZE};

fn bytes(p: &Packet) -> Vec<u8> {
    p.data[..p.size].to_vec()
}

#[test]
fn packet_empty_and_new() {
    let p = Packet::empty();
    assert_eq!(p.size, 0);
    assert_eq!(p.remaining(), MAX_PACKET_SIZE);
    let q = Packet::new(&[1, 2, 3]);
    assert_eq!(bytes(&q), vec![1, 2, 3]);
    assert_eq!(q.remaining(), 517);
}

#[test]
fn packet_new_full_size() {
    let big = vec![7u8; MAX_PACKET_SIZE];
    let p = Packet::new(&big);
    assert_eq!(p.size, MAX_PACKET_SIZE);
    assert_eq!(p.remaining(), 0);
}

#[test]
fn packet_reliable_frame() {
    let p = Packet::new_reliable(0x0102_0304, &[9, 8]);
    assert_eq!(bytes(&p), vec![0x00, 0x03, 0x04, 0x03, 0x02, 0x01, 9, 8]);
}

#[test]
fn packet_reliable_ack_frame() {
    let p = Packet::new_reliable_ack(0xAABB_CCDD);
    assert_eq!(bytes(&p), vec![0x00, 0x04, 0xDD, 0xCC, 0xBB, 0xAA]);
}

#[test]
fn packet_sync_response_frame() {
    let p = Packet::new_sync_response_at(Tick::new(0x0000_0102), Tick::new(0x0300_0004));
    assert_eq!(bytes(&p), vec![0x00, 0x06, 0x02, 0x01, 0, 0, 0x04, 0, 0, 0x03]);
    let q = Packet::new_sync_response(Tick::new(5));
    assert_eq!(q.size, 10);
    assert_eq!(&q.data[..6], &[0x00, 0x06, 5, 0, 0, 0]);
}

#[test]
fn packet_concat_encodings() {
    let p = Packet::empty()
        .concat_u8(0xAB)
        .concat_u16(0x1234)
        .concat_u32(0xDEAD_BEEF)
        .concat_i8(-1)
        .concat_i16(-2)
        .concat_i32(-3);
    assert_eq!(
        bytes(&p),
        vec![0xAB, 0x34, 0x12, 0xEF, 0xBE, 0xAD, 0xDE, 0xFF, 0xFE, 0xFF, 0xFD, 0xFF, 0xFF, 0xFF]
    );
}

#[test]
fn packet_write_encodings() {
    let mut p = Packet::empty();
    p.write_u8(1);
    p.write_u16(0x0203);
    p.write_u32(0x0405_0607);
    p.write_i8(-128);
    p.write_i16(i16::MIN);
    p.write_i32(i32::MIN);
    assert_eq!(
        bytes(&p),
        vec![1, 0x03, 0x02, 0x07, 0x06, 0x05, 0x04, 0x80, 0x00, 0x80, 0, 0, 0, 0x80]
    );
    assert_eq!(p.remaining(), MAX_PACKET_SIZE - 14);
}

#[test]
fn packet_append_bytes() {
    let mut p = Packet::new(&[1]);
    p.append(&[2, 3]);
    assert_eq!(bytes(&p), vec![1, 2, 3]);
}

#[test]
fn read_u32_little_endian() {
    assert_eq!(read_u32_le(&[9, 0x44, 0x33, 0x22, 0x11], 1), 0x1122_3344);
}
