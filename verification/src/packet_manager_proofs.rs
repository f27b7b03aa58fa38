//! What a driver that answers every action of the manager brings about.

use crate::binary_packets::{length_prefixed, lemma_be_bytes_len};
use crate::hw_aes::{
    chain_encrypt, inverts, keeps_block_size, padding_len, valid_encrypted_len, zero_padded, zeros,
    DecryptionModel, EncryptionModel, AES_BLOCK_SIZE, IV_SIZE,
};
use crate::hw_aes_proofs::{lemma_decrypt_inverts_encrypt, lemma_encryption_run};
use crate::hw_hmac_proofs::gives_tags;
use crate::packet_types::{CommPacket, Transmittable};
use crate::packetizer_proofs::{
    inside_message, lemma_chunk_parses, lemma_framed_packet_completes,
    lemma_partial_frame_completes_nothing,
};
use crate::hw_hmac::{authenticated, keyed_hash, KeyedHashModel, HASH_SIZE};
use crate::packet_manager::{
    sequence_after, ActionModel, Direction, EventModel, ManagerModel, PhaseModel, Step,
    CHUNK_PAYLOAD_LEN,
};
use crate::packetizer::{
    chunk_count, chunk_header, lemma_feed_concat, lemma_split_len, split_chunks, split_from,
    AssemblerModel, ReassemblerModel, MAX_CHUNKS,
};
use crate::peer_table::{
    after_receive, lemma_peer_index, new_peer, peer_index, received_packet, with_session,
    PeerModel, MAX_NODES,
};
use vstd::prelude::*;

verus! {

/// The engines of a driver, as functions: the block transform and its
/// inverse, each under a key, and the digest.
pub struct Engines {
    pub cipher: spec_fn(Seq<u8>, Seq<u8>) -> Seq<u8>,
    pub inverse: spec_fn(Seq<u8>, Seq<u8>) -> Seq<u8>,
    pub digest: spec_fn(Seq<u8>) -> Seq<u8>,
}

impl Engines {
    /// The block transform under `key`.
    pub open spec fn cipher_under(self, key: Seq<u8>) -> spec_fn(Seq<u8>) -> Seq<u8> {
        |block: Seq<u8>| (self.cipher)(key, block)
    }

    /// The inverse block transform under `key`.
    pub open spec fn inverse_under(self, key: Seq<u8>) -> spec_fn(Seq<u8>) -> Seq<u8> {
        |block: Seq<u8>| (self.inverse)(key, block)
    }
}

/// What the engines answer to an action. The actions on the transport, and
/// the taking of a message, are not theirs to answer.
pub open spec fn answer(action: ActionModel, engines: Engines, iv: Seq<u8>) -> Option<EventModel> {
    match action {
        ActionModel::DrawIv => Some(EventModel::Iv(iv)),
        ActionModel::Transform { block, key, direction } => Some(
            EventModel::Transformed(
                match direction {
                    Direction::Encrypt => (engines.cipher)(key, block),
                    Direction::Decrypt => (engines.inverse)(key, block),
                },
            ),
        ),
        ActionModel::Digest { input } => Some(EventModel::Digested((engines.digest)(input))),
        ActionModel::Send { datagram } => Some(EventModel::Sent),
        _ => None,
    }
}

/// Where a driver stands, and the datagrams that it has sent.
pub struct Outcome {
    pub step: Step,
    pub sent: Seq<Seq<u8>>,
}

/// The manager driven from `step` on, for at most `fuel` actions: every
/// action that the engines can answer is answered, and every datagram that
/// is to be sent is sent.
pub open spec fn drive(step: Step, engines: Engines, iv: Seq<u8>, fuel: nat) -> Outcome
    decreases fuel,
{
    if fuel == 0 {
        Outcome { step, sent: Seq::empty() }
    } else {
        match answer(step.action, engines, iv) {
            None => Outcome { step, sent: Seq::empty() },
            Some(event) => {
                let rest = drive(step.state.on_event(event), engines, iv, (fuel - 1) as nat);
                match step.action {
                    ActionModel::Send { datagram } => Outcome {
                        step: rest.step,
                        sent: seq![datagram] + rest.sent,
                    },
                    _ => rest,
                }
            },
        }
    }
}

/// The chunks behind their tags: each chunk behind its keyed hash.
pub open spec fn sealed(
    digest: spec_fn(Seq<u8>) -> Seq<u8>,
    inner_pad: Seq<u8>,
    outer_pad: Seq<u8>,
    chunks: Seq<Seq<u8>>,
) -> Seq<Seq<u8>> {
    Seq::new(
        chunks.len(),
        |i: int| keyed_hash(digest, inner_pad, outer_pad, chunks[i]) + chunks[i],
    )
}

/// A step depends on the phase of its state only where it says so: the
/// steps that start something new are the same from every phase.
pub proof fn lemma_phase_is_overwritten(state: ManagerModel, phase: PhaseModel)
    ensures
        state.in_phase(phase).receive_more() == state.receive_more(),
        state.in_phase(phase).abort() == state.abort(),
        forall|chunks: Seq<Seq<u8>>, next: int|
            #[trigger] state.in_phase(phase).continue_sending(chunks, next)
                == state.continue_sending(chunks, next),
        forall|packet: Seq<u8>|
            #[trigger] state.in_phase(phase).begin_sending(packet) == state.begin_sending(packet),
        forall|plaintext: Seq<u8>|
            #[trigger] state.in_phase(phase).deliver(plaintext) == state.deliver(plaintext),
        forall|encryption: EncryptionModel|
            #[trigger] state.in_phase(phase).continue_encryption(encryption)
                == state.continue_encryption(encryption),
        forall|decryption: DecryptionModel|
            #[trigger] state.in_phase(phase).continue_decryption(decryption)
                == state.continue_decryption(decryption),
{
}

/// From the chunk `chunks[next]` on, a driven manager sends every chunk
/// behind its tag, in order, and then turns to the transport.
pub proof fn lemma_chunks_are_sent_sealed(
    state: ManagerModel,
    chunks: Seq<Seq<u8>>,
    next: int,
    engines: Engines,
    iv: Seq<u8>,
    fuel: nat,
)
    requires
        0 <= next <= chunks.len(),
        fuel >= 3 * (chunks.len() - next),
    ensures
        drive(state.continue_sending(chunks, next), engines, iv, fuel) == (Outcome {
            step: state.receive_more(),
            sent: sealed(engines.digest, state.inner_pad, state.outer_pad, chunks).skip(next),
        }),
    decreases chunks.len() - next,
{
    let all = sealed(engines.digest, state.inner_pad, state.outer_pad, chunks);
    if next == chunks.len() {
        assert(all.skip(next) =~= Seq::<Seq<u8>>::empty());
        assert(drive(state.receive_more(), engines, iv, fuel) == (Outcome {
            step: state.receive_more(),
            sent: Seq::empty(),
        }));
    } else {
        let first = state.continue_sending(chunks, next);
        let inner = (engines.digest)(state.inner_pad + chunks[next]);
        let second = first.state.on_event(EventModel::Digested(inner));
        let tag = (engines.digest)(state.outer_pad + inner);
        let third = second.state.on_event(EventModel::Digested(tag));
        assert(third.action == ActionModel::Send { datagram: tag + chunks[next] });
        let fourth = third.state.on_event(EventModel::Sent);
        lemma_phase_is_overwritten(
            state,
            PhaseModel::SendingChunk { chunks, next },
        );
        assert(fourth == state.continue_sending(chunks, next + 1));
        lemma_chunks_are_sent_sealed(state, chunks, next + 1, engines, iv, (fuel - 3) as nat);
        assert(drive(first, engines, iv, fuel) == drive(
            second,
            engines,
            iv,
            (fuel - 1) as nat,
        ));
        assert(drive(second, engines, iv, (fuel - 1) as nat) == drive(
            third,
            engines,
            iv,
            (fuel - 2) as nat,
        ));
        let rest = drive(fourth, engines, iv, (fuel - 3) as nat);
        assert(drive(third, engines, iv, (fuel - 2) as nat) == (Outcome {
            step: rest.step,
            sent: seq![tag + chunks[next]] + rest.sent,
        }));
        assert(seq![all[next]] + all.skip(next + 1) =~= all.skip(next));
    }
}

/// A driven manager that encrypts hands every pending block to the block
/// transform, and then chunks the ciphertext with the IV behind it.
pub proof fn lemma_encryption_is_driven(
    state: ManagerModel,
    encryption: EncryptionModel,
    engines: Engines,
    iv: Seq<u8>,
    fuel: nat,
)
    requires
        encryption.wf(),
        keeps_block_size(engines.cipher_under(state.key)),
        fuel * AES_BLOCK_SIZE >= encryption.pending.len(),
    ensures
        drive(state.continue_encryption(encryption), engines, iv, fuel) == drive(
            state.begin_sending(encryption.run(engines.cipher_under(state.key)).output()),
            engines,
            iv,
            (fuel - encryption.pending.len() / AES_BLOCK_SIZE as nat) as nat,
        ),
    decreases encryption.pending.len(),
{
    let cipher = engines.cipher_under(state.key);
    if encryption.pending.len() >= AES_BLOCK_SIZE {
        let block = encryption.next_block().unwrap();
        let first = state.continue_encryption(encryption);
        let next = encryption.accept(cipher(block));
        assert(cipher(block).len() == AES_BLOCK_SIZE);
        lemma_phase_is_overwritten(state, PhaseModel::Encrypting { encryption });
        assert(first.state.on_event(EventModel::Transformed(cipher(block)))
            == state.continue_encryption(next));
        assert(next.pending.len() == encryption.pending.len() - AES_BLOCK_SIZE);
        assert(next.done.len() == encryption.done.len() + AES_BLOCK_SIZE);
        lemma_encryption_is_driven(state, next, engines, iv, (fuel - 1) as nat);
        assert(encryption.run(cipher) == next.run(cipher));
    } else {
        assert(encryption.pending.len() == 0);
        assert(encryption.run(cipher) == encryption);
    }
}

/// A driven manager that decrypts hands every pending block to the inverse
/// block transform, and then decodes the plaintext.
pub proof fn lemma_decryption_is_driven(
    state: ManagerModel,
    decryption: DecryptionModel,
    engines: Engines,
    iv: Seq<u8>,
    fuel: nat,
)
    requires
        decryption.wf(),
        fuel * AES_BLOCK_SIZE >= decryption.pending.len(),
    ensures
        drive(state.continue_decryption(decryption), engines, iv, fuel) == drive(
            state.deliver(decryption.run(engines.inverse_under(state.key)).done),
            engines,
            iv,
            (fuel - decryption.pending.len() / AES_BLOCK_SIZE as nat) as nat,
        ),
    decreases decryption.pending.len(),
{
    let inverse = engines.inverse_under(state.key);
    if decryption.pending.len() >= AES_BLOCK_SIZE {
        let block = decryption.next_block().unwrap();
        let first = state.continue_decryption(decryption);
        let next = decryption.accept(inverse(block));
        lemma_phase_is_overwritten(state, PhaseModel::Decrypting { decryption });
        assert(first.state.on_event(EventModel::Transformed(inverse(block)))
            == state.continue_decryption(next));
        assert(next.pending.len() == decryption.pending.len() - AES_BLOCK_SIZE);
        lemma_decryption_is_driven(state, next, engines, iv, (fuel - 1) as nat);
        assert(decryption.run(inverse) == next.run(inverse));
    } else {
        assert(decryption.pending.len() == 0);
        assert(decryption.run(inverse) == decryption);
    }
}

/// What a broadcast puts on the air. The plaintext is padded and encrypted
/// in chaining mode under the cluster key, the IV is put behind the
/// ciphertext, the whole is split under the next message number, and every
/// chunk is sent behind its keyed hash, in order. Encryption comes before
/// chunking, and each tag covers exactly the header and the payload of its
/// chunk. Then the manager turns to the transport.
pub proof fn lemma_broadcast_on_the_air(
    state: ManagerModel,
    plaintext: Seq<u8>,
    engines: Engines,
    iv: Seq<u8>,
    fuel: nat,
)
    requires
        iv.len() == IV_SIZE,
        keeps_block_size(engines.cipher_under(state.key)),
        fuel >= 2 + 4 * (plaintext.len() + 2 * AES_BLOCK_SIZE),
    ensures
        ({
            let msg_seq = sequence_after(state.last_sequence);
            let packet = chain_encrypt(
                engines.cipher_under(state.key),
                iv,
                zero_padded(plaintext),
            ) + iv;
            let chunks = split_chunks(msg_seq, packet, CHUNK_PAYLOAD_LEN as nat);
            drive(state.begin_broadcast(plaintext), engines, iv, fuel) == (Outcome {
                step: ManagerModel { last_sequence: msg_seq, ..state }.receive_more(),
                sent: sealed(engines.digest, state.inner_pad, state.outer_pad, chunks),
            })
        }),
{
    let cipher = engines.cipher_under(state.key);
    let msg_seq = sequence_after(state.last_sequence);
    let padded = zero_padded(plaintext);
    let packet = chain_encrypt(cipher, iv, padded) + iv;
    let chunks = split_chunks(msg_seq, packet, CHUNK_PAYLOAD_LEN as nat);
    let begun = state.begin_broadcast(plaintext);
    let encryption = EncryptionModel::start(iv, plaintext);
    crate::hw_aes_proofs::lemma_padding(plaintext.len());
    lemma_phase_is_overwritten(state, PhaseModel::AwaitingIv { plaintext });
    assert(begun.state.on_event(EventModel::Iv(iv)) == state.continue_encryption(encryption));
    assert(drive(begun, engines, iv, fuel) == drive(
        state.continue_encryption(encryption),
        engines,
        iv,
        (fuel - 1) as nat,
    ));
    let blocks = encryption.pending.len() / AES_BLOCK_SIZE as nat;
    lemma_encryption_is_driven(state, encryption, engines, iv, (fuel - 1) as nat);
    lemma_encryption_run(encryption, cipher);
    assert(encryption.run(cipher).output() =~= packet);
    crate::hw_aes_proofs::lemma_chain_encrypt_len(cipher, iv, padded);
    let renumbered = ManagerModel { last_sequence: msg_seq, ..state };
    lemma_split_len(msg_seq, 0, packet, CHUNK_PAYLOAD_LEN as nat);
    lemma_chunk_count_at_most_len(packet.len(), CHUNK_PAYLOAD_LEN as nat);
    lemma_chunks_are_sent_sealed(
        renumbered,
        chunks,
        0,
        engines,
        iv,
        (fuel - 1 - blocks) as nat,
    );
    assert(sealed(engines.digest, state.inner_pad, state.outer_pad, chunks).skip(0)
        =~= sealed(engines.digest, state.inner_pad, state.outer_pad, chunks));
}

/// A message is split into no more chunks than it has bytes.
proof fn lemma_chunk_count_at_most_len(len: nat, payload_size: nat)
    requires
        payload_size > 0,
    ensures
        chunk_count(len, payload_size) <= len,
    decreases len,
{
    if len != 0 && payload_size < len {
        lemma_chunk_count_at_most_len((len - payload_size) as nat, payload_size);
    }
}

/// A driven manager that is handed a datagram computes the keyed hash of
/// what stands behind the tag, in two passes, and then holds the datagram
/// against it.
pub proof fn lemma_datagram_is_held_against_its_hash(
    state: ManagerModel,
    sender: Seq<u8>,
    datagram: Seq<u8>,
    now: u64,
    engines: Engines,
    iv: Seq<u8>,
    fuel: nat,
)
    requires
        datagram.len() >= HASH_SIZE + 1,
        fuel >= 2,
    ensures
        drive(state.begin_unwrap(sender, datagram, now), engines, iv, fuel) == drive(
            state.finish_unwrap(
                sender,
                datagram,
                now,
                keyed_hash(
                    engines.digest,
                    state.inner_pad,
                    state.outer_pad,
                    datagram.skip(HASH_SIZE as int),
                ),
            ),
            engines,
            iv,
            (fuel - 2) as nat,
        ),
{
    let first = state.begin_unwrap(sender, datagram, now);
    let inner = (engines.digest)(state.inner_pad + datagram.skip(HASH_SIZE as int));
    let second = first.state.on_event(EventModel::Digested(inner));
    let tag = (engines.digest)(state.outer_pad + inner);
    let third = second.state.on_event(EventModel::Digested(tag));
    let hash = KeyedHashModel::start(
        state.inner_pad,
        state.outer_pad,
        datagram.skip(HASH_SIZE as int),
    );
    lemma_held_against(state, PhaseModel::Authenticating { sender, datagram, now, hash }, sender,
        datagram, now, tag);
    lemma_held_against(
        state,
        PhaseModel::Authenticating { sender, datagram, now, hash: hash.digested(inner) },
        sender,
        datagram,
        now,
        tag,
    );
    assert(third == state.finish_unwrap(sender, datagram, now, tag));
    assert(drive(first, engines, iv, fuel) == drive(second, engines, iv, (fuel - 1) as nat));
    assert(drive(second, engines, iv, (fuel - 1) as nat) == drive(
        third,
        engines,
        iv,
        (fuel - 2) as nat,
    ));
}

/// What becomes of an authenticated datagram does not depend on the phase.
proof fn lemma_held_against(
    state: ManagerModel,
    phase: PhaseModel,
    sender: Seq<u8>,
    datagram: Seq<u8>,
    now: u64,
    tag: Seq<u8>,
)
    ensures
        state.in_phase(phase).finish_unwrap(sender, datagram, now, tag) == state.finish_unwrap(
            sender,
            datagram,
            now,
            tag,
        ),
{
    let moved = state.in_phase(phase);
    lemma_phase_is_overwritten(state, phase);
    match authenticated(datagram, tag) {
        None => {},
        Some(chunk) => {
            let index = peer_index(state.peers, sender);
            if index != MAX_NODES {
                let known = if index < state.peers.len() {
                    state.peers
                } else {
                    state.peers.push(new_peer(sender, now))
                };
                let peers = known.update(
                    index,
                    PeerModel {
                        address: known[index].address,
                        last_heartbeat: now,
                        packetizer: after_receive(known[index].packetizer, chunk),
                    },
                );
                let heard = ManagerModel { peers, ..state };
                let heard_moved = ManagerModel { peers, ..moved };
                assert(heard_moved == heard.in_phase(phase));
                lemma_phase_is_overwritten(heard, phase);
            }
        },
    }
}

/// A datagram whose first 32 bytes are not the keyed hash of the rest is
/// dropped by a driven manager: nothing but the phase changes, no session
/// is made or touched, and the manager turns to the transport.
pub proof fn lemma_forged_datagram_is_dropped(
    state: ManagerModel,
    sender: Seq<u8>,
    datagram: Seq<u8>,
    now: u64,
    engines: Engines,
    iv: Seq<u8>,
    fuel: nat,
)
    requires
        fuel >= 2,
        datagram.len() < HASH_SIZE + 1 || datagram.take(HASH_SIZE as int) != keyed_hash(
            engines.digest,
            state.inner_pad,
            state.outer_pad,
            datagram.skip(HASH_SIZE as int),
        ),
    ensures
        drive(state.begin_unwrap(sender, datagram, now), engines, iv, fuel) == (Outcome {
            step: state.receive_more(),
            sent: Seq::empty(),
        }),
{
    if datagram.len() >= HASH_SIZE + 1 {
        lemma_datagram_is_held_against_its_hash(state, sender, datagram, now, engines, iv, fuel);
    }
    assert(drive(state.receive_more(), engines, iv, fuel) == (Outcome {
        step: state.receive_more(),
        sent: Seq::empty(),
    }));
    assert(drive(state.receive_more(), engines, iv, (fuel - 2) as nat) == (Outcome {
        step: state.receive_more(),
        sent: Seq::empty(),
    }));
}

/// An authentic datagram of a peer without a session reaches a full table:
/// no session is made or touched, and the refusal is handed out to be
/// logged. When it is logged, the manager turns to the transport.
pub proof fn lemma_full_table_refuses_new_peer(
    state: ManagerModel,
    sender: Seq<u8>,
    chunk: Seq<u8>,
    now: u64,
    engines: Engines,
    iv: Seq<u8>,
    fuel: nat,
)
    requires
        gives_tags(engines.digest),
        peer_index(state.peers, sender) == MAX_NODES,
        chunk.len() >= 1,
        fuel >= 2,
    ensures
        drive(
            state.begin_unwrap(
                sender,
                keyed_hash(engines.digest, state.inner_pad, state.outer_pad, chunk) + chunk,
                now,
            ),
            engines,
            iv,
            fuel,
        ) == (Outcome {
            step: Step {
                state: state.in_phase(PhaseModel::Reporting),
                action: ActionModel::PeerRefused { sender },
            },
            sent: Seq::empty(),
        }),
        state.in_phase(PhaseModel::Reporting).on_event(EventModel::Logged)
            == state.receive_more(),
{
    let tag = keyed_hash(engines.digest, state.inner_pad, state.outer_pad, chunk);
    let datagram = tag + chunk;
    assert(datagram.skip(HASH_SIZE as int) =~= chunk);
    assert(datagram.take(HASH_SIZE as int) =~= tag);
    lemma_datagram_is_held_against_its_hash(state, sender, datagram, now, engines, iv, fuel);
    let refused = Step {
        state: state.in_phase(PhaseModel::Reporting),
        action: ActionModel::PeerRefused { sender },
    };
    assert(drive(refused, engines, iv, (fuel - 2) as nat) == (Outcome {
        step: refused,
        sent: Seq::empty(),
    }));
    lemma_phase_is_overwritten(state, PhaseModel::Reporting);
}

/// The manager as the datagrams of one sender are taken in one after the
/// other, each driven until the manager turns to the transport again. The
/// first datagram that ends otherwise, with a message to take, ends the run.
pub open spec fn take_in(
    state: ManagerModel,
    sender: Seq<u8>,
    datagrams: Seq<Seq<u8>>,
    now: u64,
    engines: Engines,
    iv: Seq<u8>,
    fuel: nat,
) -> Outcome
    decreases datagrams.len(),
{
    if datagrams.len() == 0 {
        Outcome { step: state.receive_more(), sent: Seq::empty() }
    } else {
        let first = drive(state.begin_unwrap(sender, datagrams[0], now), engines, iv, fuel);
        if first.step.action == ActionModel::Receive && datagrams.len() > 1 {
            take_in(first.step.state, sender, datagrams.skip(1), now, engines, iv, fuel)
        } else {
            first
        }
    }
}

/// The peers when `sender` was heard at `now` and its reassembler was left
/// as `packetizer`.
pub open spec fn heard_from(
    peers: Seq<PeerModel>,
    sender: Seq<u8>,
    now: u64,
    packetizer: ReassemblerModel,
) -> Seq<PeerModel> {
    with_session(peers, sender, now).update(
        peer_index(peers, sender),
        PeerModel { address: sender, last_heartbeat: now, packetizer },
    )
}

/// A sender that was heard has a session, at the place where it had or got
/// one, and no other session has changed.
proof fn lemma_heard_from(
    peers: Seq<PeerModel>,
    sender: Seq<u8>,
    now: u64,
    packetizer: ReassemblerModel,
)
    requires
        peers.len() <= MAX_NODES,
        peer_index(peers, sender) != MAX_NODES,
    ensures
        heard_from(peers, sender, now, packetizer).len() <= MAX_NODES,
        peer_index(heard_from(peers, sender, now, packetizer), sender) == peer_index(
            peers,
            sender,
        ),
        peer_index(peers, sender) < heard_from(peers, sender, now, packetizer).len(),
        heard_from(peers, sender, now, packetizer)[peer_index(peers, sender)] == (PeerModel {
            address: sender,
            last_heartbeat: now,
            packetizer,
        }),
        with_session(heard_from(peers, sender, now, packetizer), sender, now) == heard_from(
            peers,
            sender,
            now,
            packetizer,
        ),
        forall|again: ReassemblerModel|
            #[trigger] heard_from(heard_from(peers, sender, now, packetizer), sender, now, again)
                == heard_from(peers, sender, now, again),
{
    lemma_peer_index(peers, sender);
    let index = peer_index(peers, sender);
    let known = with_session(peers, sender, now);
    let heard = heard_from(peers, sender, now, packetizer);
    lemma_peer_index_is_first(heard, sender, index);
    assert forall|again: ReassemblerModel|
        #[trigger] heard_from(heard, sender, now, again) == heard_from(
            peers,
            sender,
            now,
            again,
        ) by {
        assert(heard_from(heard, sender, now, again) =~= heard_from(peers, sender, now, again));
    }
}

/// The index of an address is the place of its first entry.
proof fn lemma_peer_index_is_first(peers: Seq<PeerModel>, address: Seq<u8>, index: int)
    requires
        0 <= index < peers.len(),
        peers[index].address == address,
        forall|i: int| 0 <= i < index ==> peers[i].address != address,
    ensures
        peer_index(peers, address) == index,
{
    lemma_peer_index(peers, address);
    let found = peer_index(peers, address);
    if found < index {
        assert(peers[found].address != address);
    }
    if found > index {
        assert(peers[index].address != address);
    }
}

/// What the manager makes of one authentic chunk of its sender: the sender
/// is heard, its reassembler takes the chunk, and a packet that comes out is
/// decrypted when its length allows.
proof fn lemma_authentic_chunk(
    state: ManagerModel,
    sender: Seq<u8>,
    chunk: Seq<u8>,
    now: u64,
    engines: Engines,
    iv: Seq<u8>,
    fuel: nat,
)
    requires
        gives_tags(engines.digest),
        state.peers.len() <= MAX_NODES,
        peer_index(state.peers, sender) != MAX_NODES,
        chunk.len() >= 1,
        fuel >= 2,
    ensures
        ({
            let tag = keyed_hash(engines.digest, state.inner_pad, state.outer_pad, chunk);
            let known = with_session(state.peers, sender, now);
            let before = known[peer_index(state.peers, sender)].packetizer;
            let heard = ManagerModel {
                peers: heard_from(state.peers, sender, now, after_receive(before, chunk)),
                ..state
            };
            drive(state.begin_unwrap(sender, tag + chunk, now), engines, iv, fuel) == drive(
                match received_packet(before, chunk) {
                    None => heard.receive_more(),
                    Some(packet) => if valid_encrypted_len(packet.len()) {
                        heard.continue_decryption(DecryptionModel::start(packet))
                    } else {
                        heard.receive_more()
                    },
                },
                engines,
                iv,
                (fuel - 2) as nat,
            )
        }),
{
    let tag = keyed_hash(engines.digest, state.inner_pad, state.outer_pad, chunk);
    let datagram = tag + chunk;
    assert(datagram.skip(HASH_SIZE as int) =~= chunk);
    assert(datagram.take(HASH_SIZE as int) =~= tag);
    lemma_datagram_is_held_against_its_hash(state, sender, datagram, now, engines, iv, fuel);
    lemma_peer_index(state.peers, sender);
    let index = peer_index(state.peers, sender);
    let known = with_session(state.peers, sender, now);
    assert(known[index].address == sender);
}

/// The packet of a message as a peer encrypts it under the key `key`.
pub open spec fn encrypted_packet(
    key: Seq<u8>,
    engines: Engines,
    sender_iv: Seq<u8>,
    message: CommPacket,
) -> Seq<u8> {
    chain_encrypt(engines.cipher_under(key), sender_iv, zero_padded(message.wire())) + sender_iv
}

/// The encrypted packet of a message behind its length.
pub open spec fn framed_packet(
    key: Seq<u8>,
    engines: Engines,
    sender_iv: Seq<u8>,
    message: CommPacket,
) -> Seq<u8> {
    length_prefixed(encrypted_packet(key, engines, sender_iv, message))
}

/// An encrypted packet is of a length that decryption accepts, and its
/// frame is two bytes longer.
proof fn lemma_packet_lengths(
    key: Seq<u8>,
    engines: Engines,
    sender_iv: Seq<u8>,
    message: CommPacket,
)
    requires
        keeps_block_size(engines.cipher_under(key)),
        sender_iv.len() == IV_SIZE,
    ensures
        valid_encrypted_len(encrypted_packet(key, engines, sender_iv, message).len()),
        framed_packet(key, engines, sender_iv, message).len() == encrypted_packet(
            key,
            engines,
            sender_iv,
            message,
        ).len() + 2,
{
    crate::hw_aes_proofs::lemma_padding(message.wire().len());
    crate::hw_aes_proofs::lemma_chain_encrypt_len(
        engines.cipher_under(key),
        sender_iv,
        zero_padded(message.wire()),
    );
    lemma_be_bytes_len(encrypted_packet(key, engines, sender_iv, message).len(), 2);
}

/// A reassembler in front of the rest of a framed packet: it stands behind
/// `produced` chunks of message `msg_seq`, which brought the first `fed`
/// bytes of the stream, or it has not seen the message yet. No packet waits
/// in it.
pub open spec fn awaits_rest(
    before: ReassemblerModel,
    msg_seq: u32,
    produced: nat,
    stream: Seq<u8>,
    fed: int,
) -> bool {
    &&& before.assembler.packets.len() == 0
    &&& 0 <= fed < stream.len()
    &&& if produced == 0 {
        fed == 0 && before.msg_seq < msg_seq
    } else {
        &&& before.msg_seq == msg_seq
        &&& before.chunk_seq == produced
        &&& before.assembler == AssemblerModel::empty().feed(stream.take(fed))
    }
}

/// The next chunk of a framed packet reaches a reassembler that awaits it:
/// a chunk that is not the last completes nothing, and the last one
/// completes the packet.
proof fn lemma_next_chunk_of_frame(
    before: ReassemblerModel,
    msg_seq: u32,
    produced: nat,
    packet: Seq<u8>,
    fed: int,
    taken: int,
)
    requires
        packet.len() <= 65535,
        awaits_rest(before, msg_seq, produced, length_prefixed(packet), fed),
        produced + 1 <= MAX_CHUNKS,
        0 < taken <= length_prefixed(packet).len() - fed,
    ensures
        ({
            let stream = length_prefixed(packet);
            let chunk = chunk_header(msg_seq, produced + 1) + stream.skip(fed).take(taken);
            if fed + taken < stream.len() {
                &&& received_packet(before, chunk) is None
                &&& awaits_rest(
                    after_receive(before, chunk),
                    msg_seq,
                    produced + 1,
                    stream,
                    fed + taken,
                )
            } else {
                &&& received_packet(before, chunk) == Some(packet)
                &&& after_receive(before, chunk) == inside_message(
                    msg_seq,
                    produced + 1,
                    AssemblerModel::empty(),
                )
            }
        }),
{
    let stream = length_prefixed(packet);
    let data = stream.skip(fed);
    let chunk = chunk_header(msg_seq, produced + 1) + data.take(taken);
    let clean = AssemblerModel::empty();
    lemma_chunk_parses(msg_seq, produced + 1, data.take(taken));
    let pushed = before.push_chunk(chunk);
    assert(stream.take(fed + taken) =~= stream.take(fed) + data.take(taken));
    lemma_feed_concat(clean, stream.take(fed), data.take(taken));
    assert(before.assembler.packets =~= Seq::<Seq<u8>>::empty());
    if produced == 0 {
        assert(stream.take(0) =~= Seq::<u8>::empty());
        assert(before.assembler.reset() == clean);
    }
    assert(pushed == inside_message(msg_seq, produced + 1, clean.feed(stream.take(fed + taken))));
    if fed + taken < stream.len() {
        lemma_partial_frame_completes_nothing(clean, packet, fed + taken);
    } else {
        assert(stream.take(fed + taken) =~= stream);
        lemma_framed_packet_completes(clean, packet);
        assert(pushed.assembler.packets =~= seq![packet]);
        assert(after_receive(before, chunk).assembler.packets =~= Seq::<Seq<u8>>::empty());
    }
}

/// A driven manager that holds the encrypted packet of a message decrypts
/// it block by block, finds the message at the front of the plaintext, and
/// hands it out.
proof fn lemma_packet_is_opened(
    state: ManagerModel,
    engines: Engines,
    iv: Seq<u8>,
    fuel: nat,
    message: CommPacket,
    sender_iv: Seq<u8>,
)
    requires
        keeps_block_size(engines.cipher_under(state.key)),
        inverts(engines.inverse_under(state.key), engines.cipher_under(state.key)),
        sender_iv.len() == IV_SIZE,
        message.encodable(),
        fuel >= 1 + encrypted_packet(state.key, engines, sender_iv, message).len(),
    ensures
        drive(
            state.continue_decryption(
                DecryptionModel::start(encrypted_packet(state.key, engines, sender_iv, message)),
            ),
            engines,
            iv,
            fuel,
        ) == (Outcome {
            step: Step {
                state: state.in_phase(PhaseModel::Delivering),
                action: ActionModel::Deliver { message: message.wire() },
            },
            sent: Seq::empty(),
        }),
{
    let cipher = engines.cipher_under(state.key);
    let inverse = engines.inverse_under(state.key);
    let packet = encrypted_packet(state.key, engines, sender_iv, message);
    let opened = DecryptionModel::start(packet);
    lemma_packet_lengths(state.key, engines, sender_iv, message);
    lemma_decryption_is_driven(state, opened, engines, iv, fuel);
    lemma_decrypt_inverts_encrypt(cipher, inverse, sender_iv, message.wire());
    lemma_encryption_run(EncryptionModel::start(sender_iv, message.wire()), cipher);
    assert(EncryptionModel::start(sender_iv, message.wire()).run(cipher).output() =~= packet);
    let padding = zeros(padding_len(message.wire().len()));
    let plaintext = opened.run(inverse).done;
    assert(plaintext == message.wire() + padding);
    message.lemma_wire_is_framed(padding);
    assert(plaintext.take(message.wire().len() as int) =~= message.wire());
    let delivered = state.deliver(plaintext);
    assert(drive(
        delivered,
        engines,
        iv,
        (fuel - opened.pending.len() / AES_BLOCK_SIZE as nat) as nat,
    ) == (Outcome { step: delivered, sent: Seq::empty() }));
}

/// The state of a manager that heard `sender` at `now`, whose reassembler
/// stands behind all `count` chunks of message `msg_seq`, and that holds a
/// message to be taken.
pub open spec fn delivering(
    state: ManagerModel,
    sender: Seq<u8>,
    now: u64,
    msg_seq: u32,
    count: nat,
) -> ManagerModel {
    ManagerModel {
        peers: heard_from(
            state.peers,
            sender,
            now,
            inside_message(msg_seq, count, AssemblerModel::empty()),
        ),
        phase: PhaseModel::Delivering,
        ..state
    }
}

/// The rest of a framed packet arrives, chunk by chunk, each chunk behind
/// its tag: the last chunk completes the packet, which is decrypted and
/// decoded, and the message is handed out.
#[verifier::rlimit(60)]
proof fn lemma_rest_is_delivered(
    state: ManagerModel,
    sender: Seq<u8>,
    now: u64,
    engines: Engines,
    iv: Seq<u8>,
    fuel: nat,
    msg_seq: u32,
    produced: nat,
    message: CommPacket,
    sender_iv: Seq<u8>,
    fed: int,
)
    requires
        gives_tags(engines.digest),
        keeps_block_size(engines.cipher_under(state.key)),
        inverts(engines.inverse_under(state.key), engines.cipher_under(state.key)),
        sender_iv.len() == IV_SIZE,
        message.encodable(),
        encrypted_packet(state.key, engines, sender_iv, message).len() <= 65535,
        state.peers.len() <= MAX_NODES,
        peer_index(state.peers, sender) != MAX_NODES,
        awaits_rest(
            with_session(state.peers, sender, now)[peer_index(state.peers, sender)].packetizer,
            msg_seq,
            produced,
            framed_packet(state.key, engines, sender_iv, message),
            fed,
        ),
        produced + chunk_count(
            (framed_packet(state.key, engines, sender_iv, message).len() - fed) as nat,
            CHUNK_PAYLOAD_LEN as nat,
        ) <= MAX_CHUNKS,
        fuel >= 3 + framed_packet(state.key, engines, sender_iv, message).len(),
    ensures
        take_in(
            state,
            sender,
            sealed(
                engines.digest,
                state.inner_pad,
                state.outer_pad,
                split_from(
                    msg_seq,
                    produced,
                    framed_packet(state.key, engines, sender_iv, message).skip(fed),
                    CHUNK_PAYLOAD_LEN as nat,
                ),
            ),
            now,
            engines,
            iv,
            fuel,
        ) == (Outcome {
            step: Step {
                state: delivering(
                    state,
                    sender,
                    now,
                    msg_seq,
                    produced + chunk_count(
                        (framed_packet(state.key, engines, sender_iv, message).len()
                            - fed) as nat,
                        CHUNK_PAYLOAD_LEN as nat,
                    ),
                ),
                action: ActionModel::Deliver { message: message.wire() },
            },
            sent: Seq::empty(),
        }),
    decreases framed_packet(state.key, engines, sender_iv, message).len() - fed,
{
    let packet = encrypted_packet(state.key, engines, sender_iv, message);
    let stream = framed_packet(state.key, engines, sender_iv, message);
    let size = CHUNK_PAYLOAD_LEN as nat;
    let data = stream.skip(fed);
    let taken = if size < data.len() {
        size as int
    } else {
        data.len() as int
    };
    let index = peer_index(state.peers, sender);
    let before = with_session(state.peers, sender, now)[index].packetizer;
    let chunk = chunk_header(msg_seq, produced + 1) + data.take(taken);
    let chunks = split_from(msg_seq, produced, data, size);
    let rest = split_from(msg_seq, produced + 1, data.skip(taken), size);
    let datagrams = sealed(engines.digest, state.inner_pad, state.outer_pad, chunks);
    let tag = keyed_hash(engines.digest, state.inner_pad, state.outer_pad, chunk);
    assert(chunks =~= seq![chunk] + rest);
    assert(datagrams[0] == tag + chunk);
    assert(datagrams.skip(1) =~= sealed(
        engines.digest,
        state.inner_pad,
        state.outer_pad,
        rest,
    ));
    lemma_split_len(msg_seq, produced + 1, data.skip(taken), size);
    lemma_chunk_parses(msg_seq, produced + 1, data.take(taken));
    lemma_authentic_chunk(state, sender, chunk, now, engines, iv, fuel);
    lemma_next_chunk_of_frame(before, msg_seq, produced, packet, fed, taken);
    lemma_heard_from(state.peers, sender, now, after_receive(before, chunk));
    lemma_packet_lengths(state.key, engines, sender_iv, message);
    let heard = ManagerModel {
        peers: heard_from(state.peers, sender, now, after_receive(before, chunk)),
        ..state
    };
    let first = drive(state.begin_unwrap(sender, datagrams[0], now), engines, iv, fuel);
    if taken < data.len() {
        assert(first == (Outcome { step: heard.receive_more(), sent: Seq::empty() }));
        let next = heard.receive_more().state;
        assert(data.skip(taken) =~= stream.skip(fed + taken));
        assert(rest.len() > 0);
        lemma_rest_is_delivered(
            next,
            sender,
            now,
            engines,
            iv,
            fuel,
            msg_seq,
            produced + 1,
            message,
            sender_iv,
            fed + taken,
        );
        assert(delivering(
            next,
            sender,
            now,
            msg_seq,
            produced + 1 + chunk_count((stream.len() - fed - taken) as nat, size),
        ) == delivering(
            state,
            sender,
            now,
            msg_seq,
            produced + chunk_count((stream.len() - fed) as nat, size),
        ));
    } else {
        lemma_packet_is_opened(heard, engines, iv, (fuel - 2) as nat, message, sender_iv);
        assert(rest.len() == 0);
        assert(datagrams.len() == 1);
        assert(heard.in_phase(PhaseModel::Delivering) == delivering(
            state,
            sender,
            now,
            msg_seq,
            produced + 1,
        ));
    }
}

/// What a peer's message becomes at the receiver. The peer encrypts the
/// message under the cluster key, puts the packet behind its length, splits
/// it under a message number that the receiver has not seen from it, and
/// sends every chunk behind its keyed hash. When all the datagrams arrive in
/// order, the receiver hears the peer, gives it a session if it had none
/// and the table has room, and hands out the very message, with the last
/// datagram. Decryption comes after the whole packet is reassembled.
pub proof fn lemma_framed_message_is_delivered(
    state: ManagerModel,
    sender: Seq<u8>,
    now: u64,
    engines: Engines,
    iv: Seq<u8>,
    fuel: nat,
    msg_seq: u32,
    message: CommPacket,
    sender_iv: Seq<u8>,
)
    requires
        gives_tags(engines.digest),
        keeps_block_size(engines.cipher_under(state.key)),
        inverts(engines.inverse_under(state.key), engines.cipher_under(state.key)),
        sender_iv.len() == IV_SIZE,
        message.encodable(),
        encrypted_packet(state.key, engines, sender_iv, message).len() <= 65535,
        state.peers.len() <= MAX_NODES,
        peer_index(state.peers, sender) != MAX_NODES,
        with_session(state.peers, sender, now)[peer_index(
            state.peers,
            sender,
        )].packetizer.assembler.packets.len() == 0,
        with_session(state.peers, sender, now)[peer_index(state.peers, sender)].packetizer.msg_seq
            < msg_seq,
        fuel >= 3 + framed_packet(state.key, engines, sender_iv, message).len(),
    ensures
        take_in(
            state,
            sender,
            sealed(
                engines.digest,
                state.inner_pad,
                state.outer_pad,
                split_chunks(
                    msg_seq,
                    framed_packet(state.key, engines, sender_iv, message),
                    CHUNK_PAYLOAD_LEN as nat,
                ),
            ),
            now,
            engines,
            iv,
            fuel,
        ) == (Outcome {
            step: Step {
                state: delivering(
                    state,
                    sender,
                    now,
                    msg_seq,
                    chunk_count(
                        framed_packet(state.key, engines, sender_iv, message).len(),
                        CHUNK_PAYLOAD_LEN as nat,
                    ),
                ),
                action: ActionModel::Deliver { message: message.wire() },
            },
            sent: Seq::empty(),
        }),
{
    let stream = framed_packet(state.key, engines, sender_iv, message);
    lemma_packet_lengths(state.key, engines, sender_iv, message);
    lemma_chunk_count_at_most_len(stream.len(), CHUNK_PAYLOAD_LEN as nat);
    assert(stream.skip(0) =~= stream);
    lemma_rest_is_delivered(
        state,
        sender,
        now,
        engines,
        iv,
        fuel,
        msg_seq,
        0,
        message,
        sender_iv,
        0,
    );
}

} // verus!
