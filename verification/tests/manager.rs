use aes::cipher::generic_array::GenericArray;
use aes::cipher::{BlockDecrypt, BlockEncrypt, KeyInit};
use sha2::{Digest, Sha256};
use std::collections::VecDeque;
use tactile_tesla::binary_packets::PacketWriter;
use tactile_tesla::hw_aes::encrypt_packet;
use tactile_tesla::hw_hmac::hmac_cluster_chunk;
use tactile_tesla::packet_manager::{
    Action, ClusterCredential, Direction, Event, PacketManager, Role, CHUNK_PAYLOAD_LEN,
    HEARTBEAT_INTERVAL, INNER_PACKET_MAX_LEN, MAX_BROADCAST_LEN, MAX_DATAGRAM_LEN,
};
use tactile_tesla::packet_types::{CommPacket, Heartbeat, Transmittable};
use tactile_tesla::packetizer::TolerantPacketDisassembler;

const TEST_IV: [u8; 16] = [0x10, 0x21, 0x32, 0x43, 0x54, 0x65, 0x76, 0x87, 8, 9, 10, 11, 12, 13, 14, 15];

fn test_credential() -> ClusterCredential {
    let mut secret = [0u8; 64];
    for (i, byte) in secret.iter_mut().enumerate() {
        *byte = (i * 3 + 1) as u8;
    }
    let mut key = [0u8; 32];
    key.copy_from_slice(&secret[..32]);
    let mut inner_pad = [0u8; 64];
    let mut outer_pad = [0u8; 64];
    for i in 0..64 {
        inner_pad[i] = secret[i] ^ 0x36;
        outer_pad[i] = secret[i] ^ 0x5C;
    }
    ClusterCredential::new([1, 2, 3, 4, 5, 6], key, inner_pad, outer_pad)
}

fn transform(key: &[u8; 32], block: &[u8; 16], direction: Direction) -> [u8; 16] {
    let cipher = aes::Aes256::new(GenericArray::from_slice(key));
    let mut data = GenericArray::clone_from_slice(block);
    match direction {
        Direction::Encrypt => cipher.encrypt_block(&mut data),
        Direction::Decrypt => cipher.decrypt_block(&mut data),
    }
    let mut out = [0u8; 16];
    out.copy_from_slice(&data);
    out
}

fn digest_of(data: &[u8]) -> [u8; 32] {
    let mut hasher = Sha256::new();
    hasher.update(data);
    hasher.finalize().into()
}

fn keyed_tag(credential: &ClusterCredential, chunk: &[u8]) -> [u8; 32] {
    let mut hash = hmac_cluster_chunk(&credential.inner_pad, &credential.outer_pad, chunk);
    loop {
        let digest = digest_of(hash.message());
        if let Some(tag) = hash.digested(&digest) {
            return tag;
        }
    }
}

struct Outcome {
    sent: Vec<Vec<u8>>,
    delivered: Vec<CommPacket>,
    refused: Vec<[u8; 6]>,
    transforms: usize,
    receives: usize,
}

fn drive(
    manager: &mut PacketManager,
    first: Action,
    inbox: &mut VecDeque<([u8; 6], Vec<u8>)>,
    now: u64,
) -> Outcome {
    let mut outcome = Outcome {
        sent: Vec::new(),
        delivered: Vec::new(),
        refused: Vec::new(),
        transforms: 0,
        receives: 0,
    };
    let mut action = first;
    loop {
        let event = match action {
            Action::Idle => return outcome,
            Action::DrawIv => Event::Iv(TEST_IV),
            Action::Transform { block, key, direction } => {
                outcome.transforms += 1;
                assert_eq!(key, test_credential().key);
                Event::Transformed(transform(&key, &block, direction))
            }
            Action::Digest { input } => Event::Digested(digest_of(&input)),
            Action::Send { datagram } => {
                outcome.sent.push(datagram);
                Event::Sent
            }
            Action::Receive => {
                outcome.receives += 1;
                match inbox.pop_front() {
                    Some((sender, datagram)) => Event::Received { sender, datagram, now },
                    None => Event::NothingReceived,
                }
            }
            Action::Deliver { message } => {
                outcome.delivered.push(message);
                Event::Delivered
            }
            Action::PeerRefused { sender } => {
                outcome.refused.push(sender);
                Event::Logged
            }
        };
        action = manager.resume(event);
    }
}

fn decrypt_all(key: &[u8; 32], packet: &[u8]) -> Vec<u8> {
    let (ciphertext, iv) = packet.split_at(packet.len() - 16);
    let mut previous = [0u8; 16];
    previous.copy_from_slice(iv);
    let mut plaintext = Vec::new();
    for chunk in ciphertext.chunks(16) {
        let mut block = [0u8; 16];
        block.copy_from_slice(chunk);
        let opened = transform(key, &block, Direction::Decrypt);
        for i in 0..16 {
            plaintext.push(opened[i] ^ previous[i]);
        }
        previous = block;
    }
    plaintext
}

/// The datagrams of one message as a peer that frames its packets sends
/// them: the encrypted message behind its length, chunked and tagged.
fn datagrams_of(
    credential: &ClusterCredential,
    disassembler: &mut TolerantPacketDisassembler<218>,
    plaintext: &[u8],
) -> Vec<Vec<u8>> {
    let mut encryption = encrypt_packet(TEST_IV, plaintext.to_vec());
    while let Some(block) = encryption.next_block() {
        encryption.accept_block(&transform(&credential.key, &block, Direction::Encrypt));
    }
    let mut writer = PacketWriter::new();
    writer.write_bytes(&encryption.finish()).unwrap();
    datagrams_of_stream(credential, disassembler, &writer.finish())
}

fn datagrams_of_stream(
    credential: &ClusterCredential,
    disassembler: &mut TolerantPacketDisassembler<218>,
    stream: &[u8],
) -> Vec<Vec<u8>> {
    let mut iter = disassembler.split_packet(stream);
    let mut buffer = [0u8; 218];
    let mut datagrams = Vec::new();
    while let Some(written) = iter.get_chunk(&mut buffer) {
        let mut datagram = keyed_tag(credential, &buffer[..written]).to_vec();
        datagram.extend_from_slice(&buffer[..written]);
        datagrams.push(datagram);
    }
    datagrams
}

/// A manager whose first heartbeat is out, so that the next is not due
/// before two seconds have passed.
fn quiet_manager(credential: ClusterCredential) -> PacketManager {
    let mut manager = PacketManager::new(credential, String::from("Mine"), 0);
    let mut inbox = VecDeque::new();
    let first = manager.tick(0, Role::Node);
    assert_eq!(drive(&mut manager, first, &mut inbox, 0).sent.len(), 1);
    manager
}

fn heartbeat_bytes(name: Option<&str>) -> Vec<u8> {
    let packet = CommPacket::Heartbeat(Heartbeat { car_name: name.map(String::from) });
    let mut writer = PacketWriter::new();
    packet.encode(&mut writer).unwrap();
    writer.finish()
}

fn names_of(delivered: &[CommPacket]) -> Vec<Option<String>> {
    delivered
        .iter()
        .map(|message| match message {
            CommPacket::Heartbeat(heartbeat) => heartbeat.car_name.clone(),
        })
        .collect()
}

#[test]
fn sizes_fit_one_datagram() {
    assert_eq!(MAX_DATAGRAM_LEN, 250);
    assert_eq!(INNER_PACKET_MAX_LEN, 218);
    assert_eq!(CHUNK_PAYLOAD_LEN, 212);
    assert_eq!(HEARTBEAT_INTERVAL, 2_000_000);
    assert_eq!(MAX_BROADCAST_LEN % 16, 0);
    assert!(MAX_BROADCAST_LEN + 16 <= 65535 * 212);
    assert!(MAX_BROADCAST_LEN + 16 + 16 > 65535 * 212);
}

#[test]
fn first_tick_broadcasts_a_heartbeat() {
    let credential = test_credential();
    let mut manager = PacketManager::new(credential, String::from("Tesla"), 1000);
    let mut inbox = VecDeque::new();
    let first = manager.tick(1000, Role::Node);
    assert!(matches!(first, Action::DrawIv));
    let outcome = drive(&mut manager, first, &mut inbox, 1000);
    assert_eq!(outcome.sent.len(), 1);
    assert_eq!(outcome.transforms, 1);
    assert_eq!(outcome.receives, 1);
    assert!(outcome.delivered.is_empty());
    let datagram = &outcome.sent[0];
    assert_eq!(datagram.len(), 32 + 6 + 16 + 16);
    assert_eq!(&datagram[..32], &keyed_tag(&credential, &datagram[32..]));
    assert_eq!(&datagram[32..38], &[0, 0, 0, 1, 0, 1]);
    assert_eq!(&datagram[54..], &TEST_IV);
    let mut plaintext = heartbeat_bytes(Some("Tesla"));
    assert_eq!(plaintext, vec![0, 1, 0, 5, b'T', b'e', b's', b'l', b'a']);
    plaintext.resize(16, 0);
    assert_eq!(decrypt_all(&credential.key, &datagram[38..]), plaintext);
}

#[test]
fn heartbeat_comes_every_two_seconds() {
    let mut manager = PacketManager::new(test_credential(), String::from("Tesla"), 500);
    let mut inbox = VecDeque::new();
    let first = manager.tick(700, Role::Commander);
    assert_eq!(drive(&mut manager, first, &mut inbox, 700).sent.len(), 1);
    for now in [700, 701, 1_000_000, 2_000_699] {
        let action = manager.tick(now, Role::Commander);
        assert!(matches!(action, Action::Receive));
        let outcome = drive(&mut manager, action, &mut inbox, now);
        assert!(outcome.sent.is_empty());
        assert_eq!(outcome.receives, 1);
    }
    let due = manager.tick(2_000_700, Role::Commander);
    assert!(matches!(due, Action::DrawIv));
    let outcome = drive(&mut manager, due, &mut inbox, 2_000_700);
    assert_eq!(outcome.sent.len(), 1);
    assert_eq!(&outcome.sent[0][32..38], &[0, 0, 0, 2, 0, 1]);
    // a late tick moves the deadline to two seconds behind itself
    let late = manager.tick(9_000_000, Role::Commander);
    assert_eq!(drive(&mut manager, late, &mut inbox, 9_000_000).sent.len(), 1);
    let early = manager.tick(10_999_999, Role::Commander);
    assert!(matches!(early, Action::Receive));
    drive(&mut manager, early, &mut inbox, 10_999_999);
    let on_time = manager.tick(11_000_000, Role::Commander);
    assert!(matches!(on_time, Action::DrawIv));
}

#[test]
fn broadcast_is_chunked_and_every_chunk_is_tagged() {
    let credential = test_credential();
    let mut manager = PacketManager::new(credential, String::from("Tesla"), 0);
    let mut inbox = VecDeque::new();
    let plaintext: Vec<u8> = (0..1000).map(|i| (i % 251) as u8).collect();
    let first = manager.broadcast_packet(plaintext.clone());
    let outcome = drive(&mut manager, first, &mut inbox, 0);
    assert_eq!(outcome.transforms, 63);
    assert_eq!(outcome.sent.len(), 5);
    let mut packet = Vec::new();
    for (i, datagram) in outcome.sent.iter().enumerate() {
        assert!(datagram.len() <= MAX_DATAGRAM_LEN);
        assert_eq!(datagram.len(), if i < 4 { 250 } else { 32 + 6 + 176 });
        assert_eq!(&datagram[..32], &keyed_tag(&credential, &datagram[32..]));
        assert_eq!(&datagram[32..38], &[0, 0, 0, 1, 0, i as u8 + 1]);
        packet.extend_from_slice(&datagram[38..]);
    }
    assert_eq!(packet.len(), 1008 + 16);
    let mut padded = plaintext;
    padded.resize(1008, 0);
    assert_eq!(decrypt_all(&credential.key, &packet), padded);
}

#[test]
fn empty_broadcast_sends_the_iv_alone() {
    let mut manager = PacketManager::new(test_credential(), String::from("Tesla"), 0);
    let mut inbox = VecDeque::new();
    let first = manager.broadcast_packet(Vec::new());
    let outcome = drive(&mut manager, first, &mut inbox, 0);
    assert_eq!(outcome.transforms, 0);
    assert_eq!(outcome.sent.len(), 1);
    assert_eq!(&outcome.sent[0][32..], &[&[0u8, 0, 0, 1, 0, 1][..], &TEST_IV[..]].concat()[..]);
}

#[test]
fn framed_message_of_a_peer_is_delivered() {
    let credential = test_credential();
    let mut manager = PacketManager::new(credential, String::from("Mine"), 0);
    let mut peer = TolerantPacketDisassembler::<218>::new();
    let mut inbox = VecDeque::new();
    for datagram in datagrams_of(&credential, &mut peer, &heartbeat_bytes(Some("Tesla"))) {
        inbox.push_back(([9, 9, 9, 9, 9, 1], datagram));
    }
    for datagram in datagrams_of(&credential, &mut peer, &heartbeat_bytes(None)) {
        inbox.push_back(([9, 9, 9, 9, 9, 1], datagram));
    }
    let first = manager.tick(0, Role::Node);
    let outcome = drive(&mut manager, first, &mut inbox, 5);
    assert_eq!(outcome.sent.len(), 1);
    assert_eq!(names_of(&outcome.delivered), vec![Some(String::from("Tesla")), None]);
    assert_eq!(outcome.receives, 3);
}

#[test]
fn long_message_of_a_peer_is_reassembled() {
    let credential = test_credential();
    let mut manager = quiet_manager(credential);
    let mut peer = TolerantPacketDisassembler::<218>::new();
    let name = "Model ".repeat(100);
    let datagrams = datagrams_of(&credential, &mut peer, &heartbeat_bytes(Some(&name)));
    assert_eq!(datagrams.len(), 3);
    let mut inbox: VecDeque<_> = datagrams.into_iter().map(|d| ([7u8; 6], d)).collect();
    let first = manager.tick(1, Role::Node);
    assert!(matches!(first, Action::Receive));
    let outcome = drive(&mut manager, first, &mut inbox, 1);
    assert_eq!(names_of(&outcome.delivered), vec![Some(name)]);
}

#[test]
fn lost_datagram_discards_the_message_only() {
    let credential = test_credential();
    let mut manager = quiet_manager(credential);
    let mut peer = TolerantPacketDisassembler::<218>::new();
    let name = "Model ".repeat(100);
    let broken = datagrams_of(&credential, &mut peer, &heartbeat_bytes(Some(&name)));
    let whole = datagrams_of(&credential, &mut peer, &heartbeat_bytes(Some("Tesla")));
    let mut inbox = VecDeque::new();
    inbox.push_back(([7u8; 6], broken[0].clone()));
    inbox.push_back(([7u8; 6], broken[2].clone()));
    for datagram in whole {
        inbox.push_back(([7u8; 6], datagram));
    }
    let first = manager.tick(1, Role::Node);
    let outcome = drive(&mut manager, first, &mut inbox, 1);
    assert_eq!(names_of(&outcome.delivered), vec![Some(String::from("Tesla"))]);
}

#[test]
fn peers_do_not_disturb_each_other() {
    let credential = test_credential();
    let mut manager = quiet_manager(credential);
    let mut first_peer = TolerantPacketDisassembler::<218>::new();
    let mut second_peer = TolerantPacketDisassembler::<218>::new();
    let a = datagrams_of(&credential, &mut first_peer, &heartbeat_bytes(Some(&"a".repeat(400))));
    let b = datagrams_of(&credential, &mut second_peer, &heartbeat_bytes(Some(&"b".repeat(400))));
    assert_eq!(a.len(), 3);
    let mut inbox = VecDeque::new();
    for i in 0..3 {
        inbox.push_back(([1u8; 6], a[i].clone()));
        inbox.push_back(([2u8; 6], b[i].clone()));
    }
    let first = manager.tick(1, Role::Node);
    let outcome = drive(&mut manager, first, &mut inbox, 1);
    assert_eq!(
        names_of(&outcome.delivered),
        vec![Some("a".repeat(400)), Some("b".repeat(400))]
    );
}

#[test]
fn forged_and_short_datagrams_are_dropped() {
    let credential = test_credential();
    let mut manager = quiet_manager(credential);
    let mut peer = TolerantPacketDisassembler::<218>::new();
    let good = datagrams_of(&credential, &mut peer, &heartbeat_bytes(Some("Tesla")));
    assert_eq!(good.len(), 1);
    let mut inbox = VecDeque::new();
    for bit in [0usize, 255, 256, 300, good[0].len() * 8 - 1] {
        let mut forged = good[0].clone();
        forged[bit / 8] ^= 1 << (bit % 8);
        inbox.push_back(([7u8; 6], forged));
    }
    inbox.push_back(([7u8; 6], Vec::new()));
    inbox.push_back(([7u8; 6], good[0][..32].to_vec()));
    inbox.push_back(([7u8; 6], vec![0u8; 33]));
    let first = manager.tick(1, Role::Node);
    let outcome = drive(&mut manager, first, &mut inbox, 1);
    assert!(outcome.delivered.is_empty());
    assert_eq!(outcome.transforms, 0);
    assert_eq!(outcome.receives, 9);
    // the forged datagrams have not used up the message number
    inbox.push_back(([7u8; 6], good[0].clone()));
    let next = manager.tick(2, Role::Node);
    let outcome = drive(&mut manager, next, &mut inbox, 2);
    assert_eq!(names_of(&outcome.delivered), vec![Some(String::from("Tesla"))]);
}

#[test]
fn packet_of_a_wrong_length_is_dropped() {
    let credential = test_credential();
    let mut manager = quiet_manager(credential);
    let mut peer = TolerantPacketDisassembler::<218>::new();
    let mut inbox = VecDeque::new();
    // an authentic message whose packet is not a whole number of blocks
    let mut stream = vec![0u8, 17];
    stream.extend([0x33u8; 17]);
    for datagram in datagrams_of_stream(&credential, &mut peer, &stream) {
        inbox.push_back(([7u8; 6], datagram));
    }
    // an authentic message that decrypts to no known message
    for datagram in datagrams_of(&credential, &mut peer, &[0xEE, 1, 2, 3]) {
        inbox.push_back(([7u8; 6], datagram));
    }
    for datagram in datagrams_of(&credential, &mut peer, &heartbeat_bytes(Some("Tesla"))) {
        inbox.push_back(([7u8; 6], datagram));
    }
    let first = manager.tick(1, Role::Node);
    let outcome = drive(&mut manager, first, &mut inbox, 1);
    assert_eq!(names_of(&outcome.delivered), vec![Some(String::from("Tesla"))]);
    assert_eq!(outcome.transforms, 2);
}

#[test]
fn fifty_first_peer_is_refused() {
    let credential = test_credential();
    let mut manager = quiet_manager(credential);
    let mut inbox = VecDeque::new();
    for n in 0..51u8 {
        let mut peer = TolerantPacketDisassembler::<218>::new();
        let name = format!("car {}", n);
        for datagram in datagrams_of(&credential, &mut peer, &heartbeat_bytes(Some(&name))) {
            inbox.push_back(([0xAA, 0, 0, 0, 0, n], datagram));
        }
    }
    // the first peer is heard again behind the one that was refused
    let mut again = TolerantPacketDisassembler::<218>::new();
    again.split_packet(&[]);
    for datagram in datagrams_of(&credential, &mut again, &heartbeat_bytes(Some("car 0 again"))) {
        inbox.push_back(([0xAA, 0, 0, 0, 0, 0], datagram));
    }
    let first = manager.tick(1, Role::Node);
    let outcome = drive(&mut manager, first, &mut inbox, 1);
    let mut expected: Vec<Option<String>> = (0..50).map(|n| Some(format!("car {}", n))).collect();
    expected.push(Some(String::from("car 0 again")));
    assert_eq!(names_of(&outcome.delivered), expected);
    // the refusal was handed out to be logged, once
    assert_eq!(outcome.refused, vec![[0xAA, 0, 0, 0, 0, 50]]);
}

#[test]
fn unauthentic_sender_takes_no_place_in_the_table() {
    let credential = test_credential();
    let mut manager = quiet_manager(credential);
    let mut inbox = VecDeque::new();
    for n in 0..60u8 {
        inbox.push_back(([0xBB, 0, 0, 0, 0, n], vec![n; 40]));
    }
    for n in 0..50u8 {
        let mut peer = TolerantPacketDisassembler::<218>::new();
        for datagram in datagrams_of(&credential, &mut peer, &heartbeat_bytes(None)) {
            inbox.push_back(([0xCC, 0, 0, 0, 0, n], datagram));
        }
    }
    let first = manager.tick(1, Role::Node);
    let outcome = drive(&mut manager, first, &mut inbox, 1);
    assert_eq!(outcome.delivered.len(), 50);
    assert!(outcome.refused.is_empty());
}

#[test]
fn event_that_is_not_awaited_ends_the_tick() {
    let mut manager = PacketManager::new(test_credential(), String::from("Mine"), 0);
    assert!(matches!(manager.resume(Event::Sent), Action::Idle));
    assert!(matches!(manager.resume(Event::Delivered), Action::Idle));
    assert!(matches!(manager.resume(Event::Iv(TEST_IV)), Action::Idle));
    let first = manager.tick(0, Role::Node);
    assert!(matches!(first, Action::DrawIv));
    // a digest where the IV was awaited
    assert!(matches!(manager.resume(Event::Digested([0u8; 32])), Action::Idle));
    // the broadcast was given up: the IV is no longer awaited
    assert!(matches!(manager.resume(Event::Iv(TEST_IV)), Action::Idle));
    // the heartbeat is not due again, so the next tick only drains
    assert!(matches!(manager.tick(1, Role::Node), Action::Receive));
    // nothing was refused, so nothing was to be logged
    assert!(matches!(manager.resume(Event::Logged), Action::Idle));
    assert!(matches!(manager.tick(2, Role::Node), Action::Receive));
    assert!(matches!(manager.resume(Event::NothingReceived), Action::Idle));
}

#[test]
fn refused_peer_is_reported_before_the_next_datagram() {
    let credential = test_credential();
    let mut manager = quiet_manager(credential);
    let mut inbox = VecDeque::new();
    for n in 0..50u8 {
        let mut peer = TolerantPacketDisassembler::<218>::new();
        for datagram in datagrams_of(&credential, &mut peer, &heartbeat_bytes(None)) {
            inbox.push_back(([0xDD, 0, 0, 0, 0, n], datagram));
        }
    }
    let first = manager.tick(1, Role::Node);
    assert_eq!(drive(&mut manager, first, &mut inbox, 1).delivered.len(), 50);
    let mut late = TolerantPacketDisassembler::<218>::new();
    let datagram = datagrams_of(&credential, &mut late, &heartbeat_bytes(None)).remove(0);
    let mut action = manager.unwrap_packet(&[0xEE; 6], datagram.clone(), 2);
    for _ in 0..2 {
        match action {
            Action::Digest { input } => action = manager.resume(Event::Digested(digest_of(&input))),
            other => panic!("not a digest: {:?}", other),
        }
    }
    match action {
        Action::PeerRefused { sender } => assert_eq!(sender, [0xEE; 6]),
        other => panic!("not a refusal: {:?}", other),
    }
    assert!(matches!(manager.resume(Event::Logged), Action::Receive));
    // a forged datagram of the same peer is dropped without a report
    let mut forged = datagram;
    forged[0] ^= 1;
    inbox.push_back(([0xEE; 6], forged));
    let outcome = drive(&mut manager, Action::Receive, &mut inbox, 3);
    assert!(outcome.refused.is_empty());
    assert!(outcome.delivered.is_empty());
}

#[test]
fn unwrap_packet_starts_with_the_inner_pass() {
    let credential = test_credential();
    let mut manager = quiet_manager(credential);
    let mut peer = TolerantPacketDisassembler::<218>::new();
    let datagram = datagrams_of(&credential, &mut peer, &heartbeat_bytes(Some("Tesla"))).remove(0);
    let action = manager.unwrap_packet(&[3u8; 6], datagram.clone(), 10);
    match &action {
        Action::Digest { input } => {
            assert_eq!(&input[..64], &credential.inner_pad);
            assert_eq!(&input[64..], &datagram[32..]);
        }
        other => panic!("not a digest: {:?}", other),
    }
    let mut inbox = VecDeque::new();
    let outcome = drive(&mut manager, action, &mut inbox, 10);
    assert_eq!(names_of(&outcome.delivered), vec![Some(String::from("Tesla"))]);
    assert!(matches!(manager.unwrap_packet(&[3u8; 6], vec![0u8; 32], 11), Action::Receive));
}
