use tactile_tesla::peer_table::{PeerPacketizer, PeerTable, PeerTableError, MAX_NODES};

fn address(n: u8) -> [u8; 6] {
    [0x02, 0, 0, 0, 0, n]
}

#[test]
fn table_keeps_fifty_peers_and_refuses_the_next() {
    assert_eq!(MAX_NODES, 50);
    let mut table = PeerTable::new();
    assert_eq!(table.len(), 0);
    for n in 0..50u8 {
        assert_eq!(table.session_index(&address(n), 1000 + n as u64), Ok(n as usize));
    }
    assert_eq!(table.len(), 50);
    assert_eq!(
        table.session_index(&address(50), 5000),
        Err(PeerTableError::CapacityExceeded)
    );
    assert_eq!(table.len(), 50);
    assert_eq!(table.position(&address(50)), None);
    for n in 0..50u8 {
        assert_eq!(table.position(&address(n)), Some(n as usize));
        assert_eq!(table.session_index(&address(n), 9000), Ok(n as usize));
    }
    assert_eq!(table.len(), 50);
}

#[test]
fn known_address_gets_its_session_again() {
    let mut table = PeerTable::new();
    assert_eq!(table.position(&address(1)), None);
    assert_eq!(table.session_index(&address(1), 10), Ok(0));
    assert_eq!(table.session_index(&address(2), 20), Ok(1));
    assert_eq!(table.session_index(&address(1), 30), Ok(0));
    assert_eq!(table.len(), 2);
    assert_eq!(table.position(&address(2)), Some(1));
    assert_eq!(table.position(&[0x02, 0, 0, 0, 1, 2]), None);
}

#[test]
fn each_peer_is_reassembled_alone() {
    let mut table = PeerTable::new();
    let first = table.session_index(&address(1), 0).unwrap();
    let second = table.session_index(&address(2), 0).unwrap();
    // both peers send message 1 in two chunks, interleaved
    assert_eq!(table.receive(first, 1, &[0, 0, 0, 1, 0, 1, 0, 2, 0xA1]), None);
    assert_eq!(table.receive(second, 2, &[0, 0, 0, 1, 0, 1, 0, 2, 0xB1]), None);
    assert_eq!(table.receive(first, 3, &[0, 0, 0, 1, 0, 2, 0xA2]), Some(vec![0xA1, 0xA2]));
    assert_eq!(table.receive(second, 4, &[0, 0, 0, 1, 0, 2, 0xB2]), Some(vec![0xB1, 0xB2]));
}

#[test]
fn session_hands_out_one_packet_per_chunk() {
    let mut session = PeerPacketizer::new(7);
    // one chunk completes two packets
    let chunk = [0, 0, 0, 1, 0, 1, 0, 1, 0x0A, 0, 1, 0x0B];
    assert_eq!(session.receive(8, &chunk), Some(vec![0x0A]));
    // a chunk that is dropped still lets the waiting packet out
    assert_eq!(session.receive(9, &[0, 0, 0, 1, 0, 1]), Some(vec![0x0B]));
    assert_eq!(session.receive(10, &[0, 0, 0, 1, 0, 1]), None);
}
