use arena_server::player::{PeerAddr, PidSet, PlayerManager, INVALID_PLAYER_ID};

fn addr(n: u16) -> PeerAddr {
    PeerAddr { ip: 0x7F00_0001, port: n, v6: false }
}

#[test]
fn pidset_set_test_clear() {
    let mut s = PidSet::new();
    assert!(!s.test(0));
    assert!(s.test(1024));
    assert!(s.test(INVALID_PLAYER_ID));
    s.set(63);
    s.set(64);
    assert!(s.test(63));
    assert!(s.test(64));
    assert!(!s.test(65));
    s.clear(63);
    assert!(!s.test(63));
    assert!(s.test(64));
}

#[test]
fn pidset_allocates_lowest_free() {
    let mut s = PidSet::new();
    assert_eq!(s.get_and_set_free_pid(), Some(0));
    assert_eq!(s.get_and_set_free_pid(), Some(1));
    s.set(2);
    assert_eq!(s.get_and_set_free_pid(), Some(3));
    s.clear(1);
    assert_eq!(s.get_and_set_free_pid(), Some(1));
}

#[test]
fn player_ids_are_reused_exactly_once() {
    let mut m = PlayerManager::new();
    for i in 0..1024u16 {
        assert_eq!(m.create_player(addr(i), String::from("p")), Some(i));
    }
    assert_eq!(m.create_player(addr(5000), String::new()), None);
    m.remove_player(500);
    assert!(m.get_player_by_id(500).is_none());
    assert_eq!(m.create_player(addr(6000), String::from("again")), Some(500));
    assert_eq!(m.create_player(addr(7000), String::new()), None);
    let p = m.get_player_by_id(500).unwrap();
    assert_eq!(p.name, "again");
    assert_eq!(p.addr, addr(6000));
}

#[test]
fn player_lookup_requires_allocation() {
    let mut m = PlayerManager::new();
    assert!(m.get_player_by_id(0).is_none());
    assert!(m.get_player_by_id(INVALID_PLAYER_ID).is_none());
    let id = m.create_player(addr(1), String::from("bob")).unwrap();
    let p = m.get_player_by_id(id).unwrap();
    assert_eq!(p.id, id);
    assert_eq!(p.name, "bob");
    m.remove_player(id);
    assert!(m.get_player_by_id(id).is_none());
    assert!(m.players.is_empty());
}

#[test]
fn player_new_has_empty_name() {
    let p = arena_server::player::Player::new(addr(3), 9);
    assert_eq!(p.id, 9);
    assert!(p.name.is_empty());
}
