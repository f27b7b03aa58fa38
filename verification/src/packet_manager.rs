//! Orchestrates the outbound and the inbound pipeline, the heartbeat and the
//! per-peer sessions.
//!
//! The manager performs no outside work itself. Each call returns the
//! [`Action`] that its driver is to perform next: draw random bytes, transform
//! a block, digest a message, send or receive a datagram, take a decoded
//! message, log a refused peer. The driver reports what came of it as an
//! [`Event`], and gets the next action, until the action is [`Action::Idle`].

use crate::binary_packets::{PacketReader, PacketWriter, MAX_FIELD_LEN};
use crate::hw_aes::{
    decrypt_packet, encrypt_packet, valid_encrypted_len, DecryptionModel, EncryptionModel,
    PacketDecryption, PacketEncryption, AES_BLOCK_SIZE, AES_KEY_SIZE, IV_SIZE,
};
use crate::hw_hmac::{
    authenticate_packet, authenticated, hmac_cluster_chunk, KeyedHash, KeyedHashModel, BLOCK_SIZE,
    HASH_SIZE,
};
use crate::packet_types::{CommPacket, Heartbeat, Transmittable};
use crate::packetizer::{split_chunks, TolerantPacketDisassembler, TOLERANT_PACKET_OVERHEAD};
use crate::peer_table::{
    after_receive, distinct_addresses, new_peer, peer_index, received_packet, PeerModel,
    PeerTable, MAX_NODES,
};
use vstd::prelude::*;
use vstd::slice::{slice_subrange, slice_to_vec};
use vstd::utf8::encode_utf8;

pub mod commander;

verus! {

/// The largest datagram that the transport carries.
pub const MAX_DATAGRAM_LEN: usize = 250;

/// The largest chunk, header included, that fits a datagram behind its tag.
pub const INNER_PACKET_MAX_LEN: usize = MAX_DATAGRAM_LEN - HASH_SIZE;

/// The payload bytes of one chunk.
pub const CHUNK_PAYLOAD_LEN: usize = INNER_PACKET_MAX_LEN - TOLERANT_PACKET_OVERHEAD;

/// The time between two heartbeats, in microseconds: the manager counts time
/// in microseconds throughout.
pub const HEARTBEAT_INTERVAL: u64 = 2_000_000;

/// The longest plaintext that one broadcast can carry: padded, and with its
/// IV, it must fit the chunks that one message can number.
pub const MAX_BROADCAST_LEN: usize = 13_893_392;

#[derive(Debug, Clone, Copy, PartialEq, Eq, Structural)]
pub enum Role {
    /// This is the main controller with access to the vehicle CANbus
    Commander,
    /// This is a generic node with no special requirements
    Node,
}

/// Which way a block is to be transformed.
#[derive(Debug, Clone, Copy, PartialEq, Eq, Structural)]
pub enum Direction {
    Encrypt,
    Decrypt,
}

/// What a cluster shares: its identifier, its symmetric key, and the two
/// authentication pads that were derived from the key when the cluster was
/// provisioned.
#[derive(Debug, Clone, Copy)]
pub struct ClusterCredential {
    pub id: [u8; 6],
    pub key: [u8; AES_KEY_SIZE],
    pub inner_pad: [u8; BLOCK_SIZE],
    pub outer_pad: [u8; BLOCK_SIZE],
}

impl ClusterCredential {
    pub fn new(
        id: [u8; 6],
        key: [u8; AES_KEY_SIZE],
        inner_pad: [u8; BLOCK_SIZE],
        outer_pad: [u8; BLOCK_SIZE],
    ) -> (credential: Self)
        ensures
            credential.id == id,
            credential.key == key,
            credential.inner_pad == inner_pad,
            credential.outer_pad == outer_pad,
    {
        Self { id, key, inner_pad, outer_pad }
    }
}

/// What the driver of the manager is to do next.
#[derive(Debug)]
pub enum Action {
    /// Nothing: the tick is over.
    Idle,
    /// Draw an initialization vector from the secure random source.
    DrawIv,
    /// Transform `block` under `key`.
    Transform { block: [u8; AES_BLOCK_SIZE], key: [u8; AES_KEY_SIZE], direction: Direction },
    /// Compute the digest of `input`.
    Digest { input: Vec<u8> },
    /// Send `datagram` to the broadcast address, and wait for the end of the
    /// transmission.
    Send { datagram: Vec<u8> },
    /// Take one buffered datagram from the transport, if it holds one.
    Receive,
    /// Take `message`, which a peer sent.
    Deliver { message: CommPacket },
    /// Log that the peer table is full: the datagram of `sender`, a peer
    /// without a session, was dropped.
    PeerRefused { sender: [u8; 6] },
}

/// What came of the action that the manager asked for.
#[derive(Debug)]
pub enum Event {
    /// The initialization vector that was drawn.
    Iv([u8; IV_SIZE]),
    /// The block, transformed.
    Transformed([u8; AES_BLOCK_SIZE]),
    /// The digest of the message.
    Digested([u8; HASH_SIZE]),
    /// The datagram was sent, or could not be.
    Sent,
    /// A datagram that `sender` sent, taken from the transport at `now`.
    Received { sender: [u8; 6], datagram: Vec<u8>, now: u64 },
    /// The transport holds no datagram.
    NothingReceived,
    /// The message was taken.
    Delivered,
    /// The refusal of a peer was logged.
    Logged,
}

/// An action by its plain values. A message stands by its bytes on the wire.
pub enum ActionModel {
    Idle,
    DrawIv,
    Transform { block: Seq<u8>, key: Seq<u8>, direction: Direction },
    Digest { input: Seq<u8> },
    Send { datagram: Seq<u8> },
    Receive,
    Deliver { message: Seq<u8> },
    PeerRefused { sender: Seq<u8> },
}

/// An event by its plain values.
pub enum EventModel {
    Iv(Seq<u8>),
    Transformed(Seq<u8>),
    Digested(Seq<u8>),
    Sent,
    Received { sender: Seq<u8>, datagram: Seq<u8>, now: u64 },
    NothingReceived,
    Delivered,
    Logged,
}

impl View for Action {
    type V = ActionModel;

    open spec fn view(&self) -> ActionModel {
        match self {
            Action::Idle => ActionModel::Idle,
            Action::DrawIv => ActionModel::DrawIv,
            Action::Transform { block, key, direction } => ActionModel::Transform {
                block: block@,
                key: key@,
                direction: *direction,
            },
            Action::Digest { input } => ActionModel::Digest { input: input@ },
            Action::Send { datagram } => ActionModel::Send { datagram: datagram@ },
            Action::Receive => ActionModel::Receive,
            Action::Deliver { message } => ActionModel::Deliver { message: message.wire() },
            Action::PeerRefused { sender } => ActionModel::PeerRefused { sender: sender@ },
        }
    }
}

impl View for Event {
    type V = EventModel;

    open spec fn view(&self) -> EventModel {
        match self {
            Event::Iv(iv) => EventModel::Iv(iv@),
            Event::Transformed(block) => EventModel::Transformed(block@),
            Event::Digested(digest) => EventModel::Digested(digest@),
            Event::Sent => EventModel::Sent,
            Event::Received { sender, datagram, now } => EventModel::Received {
                sender: sender@,
                datagram: datagram@,
                now: *now,
            },
            Event::NothingReceived => EventModel::NothingReceived,
            Event::Delivered => EventModel::Delivered,
            Event::Logged => EventModel::Logged,
        }
    }
}

/// Where the manager stands between two calls.
pub enum PhaseModel {
    /// No tick is under way.
    Idle,
    /// A broadcast waits for its initialization vector.
    AwaitingIv { plaintext: Seq<u8> },
    /// A broadcast is being encrypted.
    Encrypting { encryption: EncryptionModel },
    /// The chunk `chunks[next]` is being authenticated.
    SealingChunk { chunks: Seq<Seq<u8>>, next: int, hash: KeyedHashModel },
    /// The chunk `chunks[next]` is being sent.
    SendingChunk { chunks: Seq<Seq<u8>>, next: int },
    /// The transport is being drained.
    Receiving,
    /// A datagram is being authenticated.
    Authenticating { sender: Seq<u8>, datagram: Seq<u8>, now: u64, hash: KeyedHashModel },
    /// A reassembled packet is being decrypted.
    Decrypting { decryption: DecryptionModel },
    /// A decoded message waits to be taken.
    Delivering,
    /// The refusal of a peer waits to be logged.
    Reporting,
}

/// What the manager holds.
pub struct ManagerModel {
    /// The identifier of the cluster.
    pub id: Seq<u8>,
    pub key: Seq<u8>,
    pub inner_pad: Seq<u8>,
    pub outer_pad: Seq<u8>,
    /// The identity that heartbeats carry.
    pub car_name: Seq<char>,
    /// When the next heartbeat is due.
    pub next_heartbeat: u64,
    /// The number of the message that was broadcast last.
    pub last_sequence: u32,
    pub peers: Seq<PeerModel>,
    pub phase: PhaseModel,
}

/// The state after a call, and the action that the call returns.
pub struct Step {
    pub state: ManagerModel,
    pub action: ActionModel,
}

/// The bytes of a heartbeat message that carries `car_name`.
pub open spec fn heartbeat_wire(car_name: Seq<char>) -> Seq<u8> {
    seq![0u8, 1u8] + crate::binary_packets::length_prefixed(encode_utf8(car_name))
}

/// The message number behind `last`, wrapping at the end of the range.
pub open spec fn sequence_after(last: u32) -> u32 {
    if last == u32::MAX {
        0
    } else {
        (last + 1) as u32
    }
}

impl ManagerModel {
    /// The manager in another phase.
    pub open spec fn in_phase(self, phase: PhaseModel) -> Self {
        ManagerModel { phase, ..self }
    }

    /// Whatever was under way is given up, and the tick is over.
    pub open spec fn abort(self) -> Step {
        Step { state: self.in_phase(PhaseModel::Idle), action: ActionModel::Idle }
    }

    /// The transport is asked for the next datagram.
    pub open spec fn receive_more(self) -> Step {
        Step { state: self.in_phase(PhaseModel::Receiving), action: ActionModel::Receive }
    }

    /// The tick at `now`: a heartbeat is broadcast when it is due, and the
    /// next is then due two seconds later; else the transport is drained.
    pub open spec fn on_tick(self, now: u64) -> Step {
        if now >= self.next_heartbeat {
            ManagerModel {
                next_heartbeat: (now + HEARTBEAT_INTERVAL) as u64,
                ..self
            }.begin_broadcast(heartbeat_wire(self.car_name))
        } else {
            self.receive_more()
        }
    }

    /// A broadcast starts with its initialization vector.
    pub open spec fn begin_broadcast(self, plaintext: Seq<u8>) -> Step {
        Step {
            state: self.in_phase(PhaseModel::AwaitingIv { plaintext }),
            action: ActionModel::DrawIv,
        }
    }

    /// The next block is handed out for encryption; behind the last one the
    /// packet is chunked.
    pub open spec fn continue_encryption(self, encryption: EncryptionModel) -> Step {
        match encryption.next_block() {
            Some(block) => Step {
                state: self.in_phase(PhaseModel::Encrypting { encryption }),
                action: ActionModel::Transform {
                    block,
                    key: self.key,
                    direction: Direction::Encrypt,
                },
            },
            None => self.begin_sending(encryption.output()),
        }
    }

    /// The encrypted packet is split under the next message number.
    pub open spec fn begin_sending(self, packet: Seq<u8>) -> Step {
        let msg_seq = sequence_after(self.last_sequence);
        ManagerModel { last_sequence: msg_seq, ..self }.continue_sending(
            split_chunks(msg_seq, packet, CHUNK_PAYLOAD_LEN as nat),
            0,
        )
    }

    /// The chunk `chunks[next]` is handed out for authentication; behind
    /// the last chunk the transport is drained.
    pub open spec fn continue_sending(self, chunks: Seq<Seq<u8>>, next: int) -> Step {
        if 0 <= next < chunks.len() {
            let hash = KeyedHashModel::start(self.inner_pad, self.outer_pad, chunks[next]);
            Step {
                state: self.in_phase(PhaseModel::SealingChunk { chunks, next, hash }),
                action: ActionModel::Digest { input: hash.message },
            }
        } else {
            self.receive_more()
        }
    }

    /// The next block is handed out for decryption; behind the last one the
    /// plaintext is decoded.
    pub open spec fn continue_decryption(self, decryption: DecryptionModel) -> Step {
        match decryption.next_block() {
            Some(block) => Step {
                state: self.in_phase(PhaseModel::Decrypting { decryption }),
                action: ActionModel::Transform {
                    block,
                    key: self.key,
                    direction: Direction::Decrypt,
                },
            },
            None => self.deliver(decryption.done),
        }
    }

    /// A plaintext that starts with a message is delivered as that message;
    /// any other is dropped.
    pub open spec fn deliver(self, plaintext: Seq<u8>) -> Step {
        match CommPacket::frame_len(plaintext) {
            Some(len) => Step {
                state: self.in_phase(PhaseModel::Delivering),
                action: ActionModel::Deliver { message: plaintext.take(len as int) },
            },
            None => self.receive_more(),
        }
    }

    /// A datagram arrives. One too short to hold a tag and a byte is
    /// dropped; any other is handed out for authentication.
    pub open spec fn begin_unwrap(self, sender: Seq<u8>, datagram: Seq<u8>, now: u64) -> Step {
        if datagram.len() < HASH_SIZE + 1 {
            self.receive_more()
        } else {
            let hash = KeyedHashModel::start(
                self.inner_pad,
                self.outer_pad,
                datagram.skip(HASH_SIZE as int),
            );
            Step {
                state: self.in_phase(
                    PhaseModel::Authenticating { sender, datagram, now, hash },
                ),
                action: ActionModel::Digest { input: hash.message },
            }
        }
    }

    /// The keyed hash of a datagram is known. A datagram with another tag
    /// is dropped. One of a new peer when the table is full is dropped too,
    /// and the refusal is handed out to be logged. Any other goes to its
    /// sender's reassembler, and a packet that comes out is decrypted,
    /// unless its length is wrong.
    pub open spec fn finish_unwrap(
        self,
        sender: Seq<u8>,
        datagram: Seq<u8>,
        now: u64,
        tag: Seq<u8>,
    ) -> Step {
        match authenticated(datagram, tag) {
            None => self.receive_more(),
            Some(chunk) => {
                let index = peer_index(self.peers, sender);
                if index == MAX_NODES {
                    Step {
                        state: self.in_phase(PhaseModel::Reporting),
                        action: ActionModel::PeerRefused { sender },
                    }
                } else {
                    let known = if index < self.peers.len() {
                        self.peers
                    } else {
                        self.peers.push(new_peer(sender, now))
                    };
                    let heard = ManagerModel {
                        peers: known.update(
                            index,
                            PeerModel {
                                address: known[index].address,
                                last_heartbeat: now,
                                packetizer: after_receive(known[index].packetizer, chunk),
                            },
                        ),
                        ..self
                    };
                    match received_packet(known[index].packetizer, chunk) {
                        None => heard.receive_more(),
                        Some(packet) => if valid_encrypted_len(packet.len()) {
                            heard.continue_decryption(DecryptionModel::start(packet))
                        } else {
                            heard.receive_more()
                        },
                    }
                }
            },
        }
    }

    /// An initialization vector was drawn.
    pub open spec fn on_iv(self, iv: Seq<u8>) -> Step {
        match self.phase {
            PhaseModel::AwaitingIv { plaintext } => self.continue_encryption(
                EncryptionModel::start(iv, plaintext),
            ),
            _ => self.abort(),
        }
    }

    /// A block was transformed.
    pub open spec fn on_transformed(self, block: Seq<u8>) -> Step {
        match self.phase {
            PhaseModel::Encrypting { encryption } => self.continue_encryption(
                encryption.accept(block),
            ),
            PhaseModel::Decrypting { decryption } => self.continue_decryption(
                decryption.accept(block),
            ),
            _ => self.abort(),
        }
    }

    /// A message was digested. After the inner pass of a keyed hash the
    /// outer one is due. After the outer pass a chunk is sent behind its
    /// tag, and a datagram is held against its tag.
    pub open spec fn on_digested(self, digest: Seq<u8>) -> Step {
        match self.phase {
            PhaseModel::SealingChunk { chunks, next, hash } => match hash.tag(digest) {
                None => Step {
                    state: self.in_phase(
                        PhaseModel::SealingChunk { chunks, next, hash: hash.digested(digest) },
                    ),
                    action: ActionModel::Digest { input: hash.digested(digest).message },
                },
                Some(tag) => Step {
                    state: self.in_phase(PhaseModel::SendingChunk { chunks, next }),
                    action: ActionModel::Send { datagram: tag + chunks[next] },
                },
            },
            PhaseModel::Authenticating { sender, datagram, now, hash } => match hash.tag(
                digest,
            ) {
                None => Step {
                    state: self.in_phase(
                        PhaseModel::Authenticating {
                            sender,
                            datagram,
                            now,
                            hash: hash.digested(digest),
                        },
                    ),
                    action: ActionModel::Digest { input: hash.digested(digest).message },
                },
                Some(tag) => self.finish_unwrap(sender, datagram, now, tag),
            },
            _ => self.abort(),
        }
    }

    /// A datagram was sent.
    pub open spec fn on_sent(self) -> Step {
        match self.phase {
            PhaseModel::SendingChunk { chunks, next } => self.continue_sending(chunks, next + 1),
            _ => self.abort(),
        }
    }

    /// A datagram was received.
    pub open spec fn on_received(self, sender: Seq<u8>, datagram: Seq<u8>, now: u64) -> Step {
        match self.phase {
            PhaseModel::Receiving => self.begin_unwrap(sender, datagram, now),
            _ => self.abort(),
        }
    }

    /// The transport held no datagram.
    pub open spec fn on_nothing_received(self) -> Step {
        self.abort()
    }

    /// A message was taken.
    pub open spec fn on_delivered(self) -> Step {
        match self.phase {
            PhaseModel::Delivering => self.receive_more(),
            _ => self.abort(),
        }
    }

    /// The refusal of a peer was logged.
    pub open spec fn on_logged(self) -> Step {
        match self.phase {
            PhaseModel::Reporting => self.receive_more(),
            _ => self.abort(),
        }
    }

    /// The step that an event leads to. An event that the phase does not
    /// wait for ends the tick.
    pub open spec fn on_event(self, event: EventModel) -> Step {
        match event {
            EventModel::Iv(iv) => self.on_iv(iv),
            EventModel::Transformed(block) => self.on_transformed(block),
            EventModel::Digested(digest) => self.on_digested(digest),
            EventModel::Sent => self.on_sent(),
            EventModel::Received { sender, datagram, now } => self.on_received(
                sender,
                datagram,
                now,
            ),
            EventModel::NothingReceived => self.on_nothing_received(),
            EventModel::Delivered => self.on_delivered(),
            EventModel::Logged => self.on_logged(),
        }
    }
}

/// The chunks of a broadcast by their bytes.
pub open spec fn chunk_views(chunks: Seq<Vec<u8>>) -> Seq<Seq<u8>> {
    chunks.map_values(|chunk: Vec<u8>| chunk@)
}

/// Where the manager stands between two calls.
enum Phase {
    Idle,
    AwaitingIv { plaintext: Vec<u8> },
    Encrypting { encryption: PacketEncryption },
    SealingChunk { chunks: Vec<Vec<u8>>, next: usize, hash: KeyedHash },
    SendingChunk { chunks: Vec<Vec<u8>>, next: usize },
    Receiving,
    Authenticating { sender: [u8; 6], datagram: Vec<u8>, now: u64, hash: KeyedHash },
    Decrypting { decryption: PacketDecryption },
    Delivering,
    Reporting,
}

impl View for Phase {
    type V = PhaseModel;

    closed spec fn view(&self) -> PhaseModel {
        match self {
            Phase::Idle => PhaseModel::Idle,
            Phase::AwaitingIv { plaintext } => PhaseModel::AwaitingIv { plaintext: plaintext@ },
            Phase::Encrypting { encryption } => PhaseModel::Encrypting { encryption: encryption@ },
            Phase::SealingChunk { chunks, next, hash } => PhaseModel::SealingChunk {
                chunks: chunk_views(chunks@),
                next: *next as int,
                hash: hash@,
            },
            Phase::SendingChunk { chunks, next } => PhaseModel::SendingChunk {
                chunks: chunk_views(chunks@),
                next: *next as int,
            },
            Phase::Receiving => PhaseModel::Receiving,
            Phase::Authenticating { sender, datagram, now, hash } => PhaseModel::Authenticating {
                sender: sender@,
                datagram: datagram@,
                now: *now,
                hash: hash@,
            },
            Phase::Decrypting { decryption } => PhaseModel::Decrypting { decryption: decryption@ },
            Phase::Delivering => PhaseModel::Delivering,
            Phase::Reporting => PhaseModel::Reporting,
        }
    }
}

impl Phase {
    /// What each phase needs of what it holds.
    closed spec fn wf(&self) -> bool {
        match self {
            Phase::AwaitingIv { plaintext } => plaintext@.len() <= MAX_BROADCAST_LEN,
            Phase::Encrypting { encryption } => encryption.wf() && encryption@.done.len()
                + encryption@.pending.len() <= MAX_BROADCAST_LEN,
            Phase::SealingChunk { chunks, next, hash } => *next < chunks@.len(),
            Phase::SendingChunk { chunks, next } => *next < chunks@.len(),
            Phase::Decrypting { decryption } => decryption.wf(),
            _ => true,
        }
    }
}

/// Drives the protocol of one node: broadcasts what it is given, sends a
/// heartbeat every two seconds, and turns the datagrams of its peers into
/// messages.
pub struct PacketManager {
    credential: ClusterCredential,
    car_name: String,
    next_heartbeat: u64,
    packet_disassembler: TolerantPacketDisassembler<INNER_PACKET_MAX_LEN>,
    packetizers: PeerTable,
    phase: Phase,
}

impl View for PacketManager {
    type V = ManagerModel;

    closed spec fn view(&self) -> ManagerModel {
        ManagerModel {
            id: self.credential.id@,
            key: self.credential.key@,
            inner_pad: self.credential.inner_pad@,
            outer_pad: self.credential.outer_pad@,
            car_name: self.car_name@,
            next_heartbeat: self.next_heartbeat,
            last_sequence: self.packet_disassembler.last_sequence(),
            peers: self.packetizers@,
            phase: self.phase@,
        }
    }
}

impl PacketManager {
    /// The invariant of the manager: every constructor establishes it and
    /// every method keeps it.
    pub closed spec fn wf(&self) -> bool {
        &&& self.packetizers.wf()
        &&& self.phase.wf()
        &&& encode_utf8(self.car_name@).len() <= MAX_FIELD_LEN
    }

    /// What the invariant says of the model: the manager holds sessions for
    /// at most 50 peers, no address has two of them, every address is six
    /// bytes long, every reassembler is valid, and the name fits a
    /// heartbeat.
    pub proof fn lemma_wf(&self)
        requires
            self.wf(),
        ensures
            self@.peers.len() <= MAX_NODES,
            distinct_addresses(self@.peers),
            forall|i: int| 0 <= i < self@.peers.len() ==> (#[trigger] self@.peers[i]).address.len()
                == 6,
            forall|i: int| 0 <= i < self@.peers.len() ==> (#[trigger] self@.peers[i]).packetizer.wf(),
            self@.id.len() == 6,
            self@.key.len() == AES_KEY_SIZE,
            self@.inner_pad.len() == BLOCK_SIZE,
            self@.outer_pad.len() == BLOCK_SIZE,
            encode_utf8(self@.car_name).len() <= MAX_FIELD_LEN,
    {
        self.packetizers.lemma_wf();
    }

    /// A manager for a node of the cluster of `credential`, made at the
    /// time `now`. Its heartbeats carry `car_name`, which must fit the 16-bit
    /// length of its field, and the first is due at once.
    pub fn new(credential: ClusterCredential, car_name: String, now: u64) -> (manager: Self)
        requires
            encode_utf8(car_name@).len() <= MAX_FIELD_LEN,
        ensures
            manager.wf(),
            manager@ == (ManagerModel {
                id: credential.id@,
                key: credential.key@,
                inner_pad: credential.inner_pad@,
                outer_pad: credential.outer_pad@,
                car_name: car_name@,
                next_heartbeat: now,
                last_sequence: 0,
                peers: Seq::empty(),
                phase: PhaseModel::Idle,
            }),
    {
        PacketManager {
            credential,
            car_name,
            next_heartbeat: now,
            packet_disassembler: TolerantPacketDisassembler::new(),
            packetizers: PeerTable::new(),
            phase: Phase::Idle,
        }
    }

    /// Whatever was under way is given up, and the tick is over.
    fn abort(&mut self) -> (action: Action)
        requires
            old(self).wf(),
        ensures
            final(self).wf(),
            old(self)@.abort() == (Step { state: final(self)@, action: action@ }),
    {
        self.phase = Phase::Idle;
        Action::Idle
    }

    /// The transport is asked for the next datagram.
    fn receive_more(&mut self) -> (action: Action)
        requires
            old(self).packetizers.wf(),
            encode_utf8(old(self).car_name@).len() <= MAX_FIELD_LEN,
        ensures
            final(self).wf(),
            old(self)@.receive_more() == (Step { state: final(self)@, action: action@ }),
    {
        self.phase = Phase::Receiving;
        Action::Receive
    }

    /// The next block is handed out for encryption; behind the last one the
    /// packet is chunked.
    fn continue_encryption(&mut self, encryption: PacketEncryption) -> (action: Action)
        requires
            old(self).packetizers.wf(),
            encode_utf8(old(self).car_name@).len() <= MAX_FIELD_LEN,
            encryption.wf(),
            encryption@.done.len() + encryption@.pending.len() <= MAX_BROADCAST_LEN,
        ensures
            final(self).wf(),
            old(self)@.continue_encryption(encryption@) == (Step {
                state: final(self)@,
                action: action@,
            }),
    {
        match encryption.next_block() {
            Some(block) => {
                self.phase = Phase::Encrypting { encryption };
                Action::Transform {
                    block,
                    key: self.credential.key,
                    direction: Direction::Encrypt,
                }
            },
            None => {
                proof {
                    encryption.lemma_model_wf();
                }
                let packet = encryption.finish();
                self.begin_sending(packet)
            },
        }
    }

    /// The encrypted packet is split under the next message number.
    fn begin_sending(&mut self, packet: Vec<u8>) -> (action: Action)
        requires
            old(self).packetizers.wf(),
            encode_utf8(old(self).car_name@).len() <= MAX_FIELD_LEN,
            packet@.len() <= MAX_BROADCAST_LEN + IV_SIZE,
        ensures
            final(self).wf(),
            old(self)@.begin_sending(packet@) == (Step { state: final(self)@, action: action@ }),
    {
        let ghost msg_seq = sequence_after(self.packet_disassembler.last_sequence());
        let ghost all = split_chunks(msg_seq, packet@, CHUNK_PAYLOAD_LEN as nat);
        let mut chunk_iter = self.packet_disassembler.split_packet(packet.as_slice());
        let mut buffer = [0u8;INNER_PACKET_MAX_LEN];
        let mut chunks: Vec<Vec<u8>> = Vec::new();
        let mut exhausted = false;
        assert(chunk_views(chunks@) + chunk_iter.pending() =~= all);
        while !exhausted
            invariant
                chunk_views(chunks@) + chunk_iter.pending() == all,
                exhausted ==> chunk_iter.pending().len() == 0,
            decreases chunk_iter.pending().len() + if exhausted { 0int } else { 1int },
        {
            let ghost before = chunk_iter.pending();
            match chunk_iter.get_chunk(&mut buffer) {
                Some(written) => {
                    let chunk = slice_to_vec(
                        slice_subrange(vstd::array::array_as_slice(&buffer), 0, written),
                    );
                    proof {
                        assert(chunk@ == before[0]);
                        assert(chunk_views(chunks@.push(chunk)) =~= chunk_views(chunks@).push(
                            chunk@,
                        ));
                        assert(chunk_views(chunks@).push(before[0]) + before.skip(1)
                            =~= chunk_views(chunks@) + before);
                    }
                    chunks.push(chunk);
                },
                None => {
                    exhausted = true;
                },
            }
        }
        assert(chunk_views(chunks@) =~= all);
        self.continue_sending(chunks, 0)
    }

    /// The chunk `chunks[next]` is handed out for authentication; behind
    /// the last chunk the transport is drained.
    fn continue_sending(&mut self, chunks: Vec<Vec<u8>>, next: usize) -> (action: Action)
        requires
            old(self).packetizers.wf(),
            encode_utf8(old(self).car_name@).len() <= MAX_FIELD_LEN,
        ensures
            final(self).wf(),
            old(self)@.continue_sending(chunk_views(chunks@), next as int) == (Step {
                state: final(self)@,
                action: action@,
            }),
    {
        if next < chunks.len() {
            let hash = hmac_cluster_chunk(
                &self.credential.inner_pad,
                &self.credential.outer_pad,
                chunks[next].as_slice(),
            );
            let input = slice_to_vec(hash.message());
            self.phase = Phase::SealingChunk { chunks, next, hash };
            Action::Digest { input }
        } else {
            self.receive_more()
        }
    }

    /// The next block is handed out for decryption; behind the last one the
    /// plaintext is decoded.
    fn continue_decryption(&mut self, decryption: PacketDecryption) -> (action: Action)
        requires
            old(self).packetizers.wf(),
            encode_utf8(old(self).car_name@).len() <= MAX_FIELD_LEN,
            decryption.wf(),
        ensures
            final(self).wf(),
            old(self)@.continue_decryption(decryption@) == (Step {
                state: final(self)@,
                action: action@,
            }),
    {
        match decryption.next_block() {
            Some(block) => {
                self.phase = Phase::Decrypting { decryption };
                Action::Transform {
                    block,
                    key: self.credential.key,
                    direction: Direction::Decrypt,
                }
            },
            None => {
                let plaintext = decryption.finish();
                self.deliver(plaintext)
            },
        }
    }

    /// A plaintext that starts with a message is delivered as that message;
    /// any other is dropped.
    fn deliver(&mut self, plaintext: Vec<u8>) -> (action: Action)
        requires
            old(self).packetizers.wf(),
            encode_utf8(old(self).car_name@).len() <= MAX_FIELD_LEN,
        ensures
            final(self).wf(),
            old(self)@.deliver(plaintext@) == (Step { state: final(self)@, action: action@ }),
    {
        let mut packet_reader = PacketReader::new(plaintext.as_slice());
        assert(packet_reader.remaining() =~= plaintext@);
        match CommPacket::decode(&mut packet_reader) {
            Some(message) => {
                self.phase = Phase::Delivering;
                Action::Deliver { message }
            },
            None => self.receive_more(),
        }
    }

    /// The keyed hash of a datagram is known. A datagram with another tag
    /// is dropped, and so is one of a new peer when the table is full. Any
    /// other goes to its sender's reassembler, and a packet that comes out
    /// is decrypted, unless its length is wrong.
    fn finish_unwrap(
        &mut self,
        sender: [u8; 6],
        datagram: Vec<u8>,
        now: u64,
        tag: [u8; HASH_SIZE],
    ) -> (action: Action)
        requires
            old(self).packetizers.wf(),
            encode_utf8(old(self).car_name@).len() <= MAX_FIELD_LEN,
        ensures
            final(self).wf(),
            old(self)@.finish_unwrap(sender@, datagram@, now, tag@) == (Step {
                state: final(self)@,
                action: action@,
            }),
    {
        let chunk = match authenticate_packet(datagram.as_slice(), &tag) {
            Some(chunk) => chunk,
            None => {
                return self.receive_more();
            },
        };
        let index = match self.packetizers.session_index(&sender, now) {
            Ok(index) => index,
            Err(_) => {
                self.phase = Phase::Reporting;
                return Action::PeerRefused { sender };
            },
        };
        let packet = match self.packetizers.receive(index, now, chunk) {
            Some(packet) => packet,
            None => {
                return self.receive_more();
            },
        };
        match decrypt_packet(packet) {
            Ok(decryption) => self.continue_decryption(decryption),
            Err(_) => self.receive_more(),
        }
    }

    /// Takes the phase out of the manager, which is idle meanwhile.
    fn take_phase(&mut self) -> (phase: Phase)
        requires
            old(self).wf(),
        ensures
            phase == old(self).phase,
            phase.wf(),
            final(self).wf(),
            final(self)@ == old(self)@.in_phase(PhaseModel::Idle),
            final(self).packetizers.wf(),
            encode_utf8(final(self).car_name@).len() <= MAX_FIELD_LEN,
    {
        let mut phase = Phase::Idle;
        core::mem::swap(&mut self.phase, &mut phase);
        phase
    }

    /// An initialization vector was drawn.
    fn on_iv(&mut self, iv: [u8; IV_SIZE]) -> (action: Action)
        requires
            old(self).wf(),
        ensures
            final(self).wf(),
            old(self)@.on_iv(iv@) == (Step { state: final(self)@, action: action@ }),
    {
        match self.take_phase() {
            Phase::AwaitingIv { plaintext } => {
                let encryption = encrypt_packet(iv, plaintext);
                proof {
                    crate::hw_aes_proofs::lemma_padding(plaintext@.len());
                }
                self.continue_encryption(encryption)
            },
            _ => self.abort(),
        }
    }

    /// A block was transformed.
    fn on_transformed(&mut self, block: [u8; AES_BLOCK_SIZE]) -> (action: Action)
        requires
            old(self).wf(),
        ensures
            final(self).wf(),
            old(self)@.on_transformed(block@) == (Step { state: final(self)@, action: action@ }),
    {
        match self.take_phase() {
            Phase::Encrypting { encryption } => {
                let mut encryption = encryption;
                proof {
                    encryption.lemma_model_wf();
                }
                encryption.accept_block(&block);
                self.continue_encryption(encryption)
            },
            Phase::Decrypting { decryption } => {
                let mut decryption = decryption;
                decryption.accept_block(&block);
                self.continue_decryption(decryption)
            },
            _ => self.abort(),
        }
    }

    /// A message was digested.
    fn on_digested(&mut self, digest: [u8; HASH_SIZE]) -> (action: Action)
        requires
            old(self).wf(),
        ensures
            final(self).wf(),
            old(self)@.on_digested(digest@) == (Step { state: final(self)@, action: action@ }),
    {
        match self.take_phase() {
            Phase::SealingChunk { chunks, next, hash } => {
                let mut hash = hash;
                match hash.digested(&digest) {
                    None => {
                        let input = slice_to_vec(hash.message());
                        self.phase = Phase::SealingChunk { chunks, next, hash };
                        Action::Digest { input }
                    },
                    Some(tag) => {
                        let mut datagram = slice_to_vec(vstd::array::array_as_slice(&tag));
                        datagram.extend_from_slice(chunks[next].as_slice());
                        assert(datagram@ =~= tag@ + chunk_views(chunks@)[next as int]);
                        self.phase = Phase::SendingChunk { chunks, next };
                        Action::Send { datagram }
                    },
                }
            },
            Phase::Authenticating { sender, datagram, now, hash } => {
                let mut hash = hash;
                match hash.digested(&digest) {
                    None => {
                        let input = slice_to_vec(hash.message());
                        self.phase = Phase::Authenticating { sender, datagram, now, hash };
                        Action::Digest { input }
                    },
                    Some(tag) => self.finish_unwrap(sender, datagram, now, tag),
                }
            },
            _ => self.abort(),
        }
    }

    /// A datagram was sent.
    fn on_sent(&mut self) -> (action: Action)
        requires
            old(self).wf(),
        ensures
            final(self).wf(),
            old(self)@.on_sent() == (Step { state: final(self)@, action: action@ }),
    {
        match self.take_phase() {
            Phase::SendingChunk { chunks, next } => {
                assert(next < chunks.len());
                self.continue_sending(chunks, next + 1)
            },
            _ => self.abort(),
        }
    }

    /// A message was taken.
    fn on_delivered(&mut self) -> (action: Action)
        requires
            old(self).wf(),
        ensures
            final(self).wf(),
            old(self)@.on_delivered() == (Step { state: final(self)@, action: action@ }),
    {
        match self.take_phase() {
            Phase::Delivering => self.receive_more(),
            _ => self.abort(),
        }
    }

    /// The refusal of a peer was logged.
    fn on_logged(&mut self) -> (action: Action)
        requires
            old(self).wf(),
        ensures
            final(self).wf(),
            old(self)@.on_logged() == (Step { state: final(self)@, action: action@ }),
    {
        match self.take_phase() {
            Phase::Reporting => self.receive_more(),
            _ => self.abort(),
        }
    }

    /// A datagram was received.
    fn on_received(&mut self, sender: [u8; 6], datagram: Vec<u8>, now: u64) -> (action: Action)
        requires
            old(self).wf(),
        ensures
            final(self).wf(),
            old(self)@.on_received(sender@, datagram@, now) == (Step {
                state: final(self)@,
                action: action@,
            }),
    {
        match self.take_phase() {
            Phase::Receiving => self.unwrap_packet(&sender, datagram, now),
            _ => self.abort(),
        }
    }

    /// The identifier of the cluster.
    pub(crate) fn cluster_id(&self) -> (id: [u8; 6])
        ensures
            id@ == self@.id,
    {
        self.credential.id
    }

    /// Whether a heartbeat is due at `now`. If it is, the next one is due
    /// two seconds behind `now`.
    pub(crate) fn heartbeat_due(&mut self, now: u64) -> (due: bool)
        requires
            old(self).wf(),
            now + HEARTBEAT_INTERVAL <= u64::MAX,
        ensures
            final(self).wf(),
            due == (now >= old(self)@.next_heartbeat),
            final(self)@ == if due {
                ManagerModel { next_heartbeat: (now + HEARTBEAT_INTERVAL) as u64, ..old(self)@ }
            } else {
                old(self)@
            },
    {
        if now >= self.next_heartbeat {
            self.next_heartbeat = now + HEARTBEAT_INTERVAL;
            true
        } else {
            false
        }
    }

    /// Sends a broadcast: the packet is encrypted, chunked, authenticated
    /// chunk by chunk, and sent. Whatever was under way is given up.
    ///
    /// NOTE: Packet may have zero bytes appended to the end due to
    /// encryption semantics. If this is not okay, a length indicator
    /// should be added to the packet
    pub fn broadcast_packet(&mut self, packet: Vec<u8>) -> (action: Action)
        requires
            old(self).wf(),
            packet@.len() <= MAX_BROADCAST_LEN,
        ensures
            final(self).wf(),
            old(self)@.begin_broadcast(packet@) == (Step { state: final(self)@, action: action@ }),
    {
        self.phase = Phase::AwaitingIv { plaintext: packet };
        Action::DrawIv
    }

    /// Adds a datagram to the sender's context for processing: it is
    /// authenticated and reassembled, and a packet that it completes is
    /// decrypted and decoded. Whatever was under way is given up.
    pub fn unwrap_packet(&mut self, sender_mac: &[u8; 6], packet: Vec<u8>, now: u64) -> (action:
        Action)
        requires
            old(self).wf(),
        ensures
            final(self).wf(),
            old(self)@.begin_unwrap(sender_mac@, packet@, now) == (Step {
                state: final(self)@,
                action: action@,
            }),
    {
        // Check that the packet can accomodate an HMAC.
        // If not, it's not one of ours.
        if packet.len() < HASH_SIZE + 1 {
            return self.receive_more();
        }
        let hash = hmac_cluster_chunk(
            &self.credential.inner_pad,
            &self.credential.outer_pad,
            slice_subrange(packet.as_slice(), HASH_SIZE, packet.len()),
        );
        assert(packet@.subrange(HASH_SIZE as int, packet@.len() as int) =~= packet@.skip(
            HASH_SIZE as int,
        ));
        let input = slice_to_vec(hash.message());
        self.phase = Phase::Authenticating { sender: *sender_mac, datagram: packet, now, hash };
        Action::Digest { input }
    }

    /// Starts a tick at the time `now`: a heartbeat is broadcast when it is
    /// due, and then the transport is drained. Whatever was under way is
    /// given up. The role does not change what a tick does.
    pub fn tick(&mut self, now: u64, role_hint: Role) -> (action: Action)
        requires
            old(self).wf(),
            now + HEARTBEAT_INTERVAL <= u64::MAX,
        ensures
            final(self).wf(),
            old(self)@.on_tick(now) == (Step { state: final(self)@, action: action@ }),
    {
        // Send heartbeat if necessary
        if self.heartbeat_due(now) {
            let packet = CommPacket::Heartbeat(
                Heartbeat { car_name: Some(self.car_name.clone()) },
            );
            let mut packet_bytes = PacketWriter::new();
            match packet.encode(&mut packet_bytes) {
                Ok(()) => {
                    let plaintext = packet_bytes.finish();
                    proof {
                        crate::binary_packets::lemma_be_bytes_len(
                            encode_utf8(self.car_name@).len(),
                            2,
                        );
                        assert(plaintext@ =~= heartbeat_wire(self.car_name@));
                    }
                    self.broadcast_packet(plaintext)
                },
                Err(_) => self.abort(),
            }
        } else {
            self.receive_more()
        }
    }

    /// Takes what came of the last action, and gives the next action. An
    /// event that the manager does not wait for ends the tick.
    pub fn resume(&mut self, event: Event) -> (action: Action)
        requires
            old(self).wf(),
        ensures
            final(self).wf(),
            old(self)@.on_event(event@) == (Step { state: final(self)@, action: action@ }),
    {
        match event {
            Event::Iv(iv) => self.on_iv(iv),
            Event::Transformed(block) => self.on_transformed(block),
            Event::Digested(digest) => self.on_digested(digest),
            Event::Sent => self.on_sent(),
            Event::Received { sender, datagram, now } => self.on_received(sender, datagram, now),
            Event::NothingReceived => self.abort(),
            Event::Delivered => self.on_delivered(),
            Event::Logged => self.on_logged(),
        }
    }
}

} // verus!
