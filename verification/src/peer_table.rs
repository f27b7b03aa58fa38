//! The sessions of the peers that were heard, in a table of fixed capacity.

use crate::packetizer::{ReassemblerModel, TolerantPacketReassembler};
use vstd::prelude::*;

verus! {

/// The most peers that the table holds.
pub const MAX_NODES: usize = 50;

/// The size of a hardware address.
pub const ADDRESS_SIZE: usize = 6;

/// `heapless::Vec`, a vector of fixed capacity. What it holds is spoken of
/// through `held_addresses` only.
#[verifier::external_type_specification]
#[verifier::external_body]
#[verifier::reject_recursive_types(T)]
pub struct ExFixedVec<T, const N: usize>(heapless::Vec<T, N>);

/// The addresses that a fixed-capacity vector holds, in the order in which
/// they were pushed.
pub uninterp spec fn held_addresses(addresses: heapless::Vec<[u8; 6], MAX_NODES>) -> Seq<[u8; 6]>;

/// `heapless::Vec::new`: the new vector holds nothing.
#[verifier::external_body]
fn addresses_new() -> (addresses: heapless::Vec<[u8; 6], MAX_NODES>)
    ensures
        held_addresses(addresses) == Seq::<[u8; 6]>::empty(),
{
    heapless::Vec::new()
}

/// `heapless::Vec::push`: below capacity the item is appended; at capacity
/// it is handed back and the vector stays as it was.
#[verifier::external_body]
fn addresses_push(
    addresses: &mut heapless::Vec<[u8; 6], MAX_NODES>,
    address: [u8; 6],
) -> (result: Result<(), [u8; 6]>)
    ensures
        result is Ok <==> held_addresses(*old(addresses)).len() < MAX_NODES,
        result is Ok ==> held_addresses(*final(addresses)) == held_addresses(
            *old(addresses),
        ).push(address),
        result matches Err(back) ==> back == address && held_addresses(*final(addresses))
            == held_addresses(*old(addresses)),
{
    addresses.push(address)
}

/// `heapless::Vec::as_slice`: the items as a slice, which is never longer
/// than the capacity.
#[verifier::external_body]
fn addresses_as_slice(addresses: &heapless::Vec<[u8; 6], MAX_NODES>) -> (slice: &[[u8; 6]])
    ensures
        slice@ == held_addresses(*addresses),
        slice@.len() <= MAX_NODES,
{
    addresses.as_slice()
}

/// Whether two addresses are the same.
fn same_address(a: &[u8; 6], b: &[u8; 6]) -> (same: bool)
    ensures
        same == (a@ == b@),
{
    let mut i: usize = 0;
    while i < ADDRESS_SIZE
        invariant
            i <= ADDRESS_SIZE,
            forall|k: int| 0 <= k < i ==> a@[k] == b@[k],
        decreases ADDRESS_SIZE - i,
    {
        if a[i] != b[i] {
            return false;
        }
        i = i + 1;
    }
    assert(a@ =~= b@);
    true
}

/// The session of one peer.
pub struct PeerModel {
    pub address: Seq<u8>,
    pub last_heartbeat: u64,
    pub packetizer: ReassemblerModel,
}

/// Where `address` stands among `peers`: the index of its first entry, and
/// the number of peers when it has none.
pub open spec fn peer_index(peers: Seq<PeerModel>, address: Seq<u8>) -> int
    decreases peers.len(),
{
    if peers.len() == 0 {
        0
    } else if peers[0].address == address {
        0
    } else {
        1 + peer_index(peers.skip(1), address)
    }
}

/// The session that a new peer gets.
pub open spec fn new_peer(address: Seq<u8>, now: u64) -> PeerModel {
    PeerModel { address, last_heartbeat: now, packetizer: ReassemblerModel::empty() }
}

/// The peers after `address` was looked up at `now`: a peer without a
/// session gets one behind the others while the table has room.
pub open spec fn with_session(peers: Seq<PeerModel>, address: Seq<u8>, now: u64) -> Seq<
    PeerModel,
> {
    if peer_index(peers, address) == peers.len() && peers.len() < MAX_NODES {
        peers.push(new_peer(address, now))
    } else {
        peers
    }
}

/// Looking an address up never removes or changes a session, never gives
/// an address a second one, and never grows the table beyond its capacity.
/// When the table is full, a new address gets no session.
pub proof fn lemma_sessions_are_kept(peers: Seq<PeerModel>, address: Seq<u8>, now: u64)
    requires
        peers.len() <= MAX_NODES,
        distinct_addresses(peers),
    ensures
        with_session(peers, address, now).len() <= MAX_NODES,
        with_session(peers, address, now).len() >= peers.len(),
        forall|i: int| 0 <= i < peers.len() ==> with_session(peers, address, now)[i] == peers[i],
        distinct_addresses(with_session(peers, address, now)),
        peers.len() == MAX_NODES ==> with_session(peers, address, now) == peers,
        peer_index(with_session(peers, address, now), address) == peer_index(peers, address),
{
    lemma_peer_index(peers, address);
    let after = with_session(peers, address, now);
    lemma_peer_index(after, address);
    if after.len() > peers.len() {
        assert forall|i: int, j: int| 0 <= i < j < after.len() implies (#[trigger] after[i]).address
            != (#[trigger] after[j]).address by {
            if j < peers.len() {
                assert(peers[i].address != peers[j].address);
            } else {
                assert(peers[i].address != address);
            }
        }
        let found = peer_index(after, address);
        let last = peers.len() as int;
        assert(after[last].address == address);
        if found < last {
            assert(after[found] == peers[found]);
            assert(peers[found].address != address);
        }
        if found > last {
            assert(after[last].address != address);
        }
    }
}

/// The index of an address is one of an entry with that address, or the
/// number of peers, and no entry before it has the address.
pub proof fn lemma_peer_index(peers: Seq<PeerModel>, address: Seq<u8>)
    ensures
        0 <= peer_index(peers, address) <= peers.len(),
        peer_index(peers, address) < peers.len() ==> peers[peer_index(peers, address)].address
            == address,
        forall|i: int| 0 <= i < peer_index(peers, address) ==> peers[i].address != address,
    decreases peers.len(),
{
    if peers.len() > 0 && peers[0].address != address {
        lemma_peer_index(peers.skip(1), address);
        assert forall|i: int| 0 <= i < peer_index(peers, address) implies peers[i].address
            != address by {
            if i > 0 {
                assert(peers.skip(1)[i - 1] == peers[i]);
            }
        }
    }
}

/// The state that is kept for one peer.
pub struct PeerPacketizer {
    last_heartbeat: u64,
    packetizer: TolerantPacketReassembler,
}

impl PeerPacketizer {
    /// When the peer was heard last.
    pub closed spec fn heard_at(&self) -> u64 {
        self.last_heartbeat
    }

    /// What the peer's reassembler holds.
    pub closed spec fn reassembly(&self) -> ReassemblerModel {
        self.packetizer@
    }

    pub open spec fn wf(&self) -> bool {
        self.reassembly().wf()
    }

    /// The session of a peer that is heard at `now` for the first time.
    pub fn new(now: u64) -> (session: Self)
        ensures
            session.wf(),
            session.heard_at() == now,
            session.reassembly() == ReassemblerModel::empty(),
    {
        Self { last_heartbeat: now, packetizer: TolerantPacketReassembler::new() }
    }

    /// The peer sent `chunk` at `now`. The oldest complete packet of the
    /// peer is taken out, if there is one.
    pub fn receive(&mut self, now: u64, chunk: &[u8]) -> (packet: Option<Vec<u8>>)
        requires
            old(self).wf(),
        ensures
            final(self).wf(),
            final(self).heard_at() == now,
            received_packet(old(self).reassembly(), chunk@) == match packet {
                Some(bytes) => Some(bytes@),
                None => None,
            },
            final(self).reassembly() == after_receive(old(self).reassembly(), chunk@),
    {
        self.last_heartbeat = now;
        self.packetizer.push_data(chunk);
        self.packetizer.next()
    }
}

/// The packet that comes out when `chunk` is pushed.
pub open spec fn received_packet(reassembly: ReassemblerModel, chunk: Seq<u8>) -> Option<
    Seq<u8>,
> {
    let pushed = reassembly.push_chunk(chunk);
    if pushed.assembler.packets.len() > 0 {
        Some(pushed.assembler.packets[0])
    } else {
        None
    }
}

/// The reassembler after `chunk` was pushed and the packet that came out
/// was taken.
pub open spec fn after_receive(reassembly: ReassemblerModel, chunk: Seq<u8>) -> ReassemblerModel {
    let pushed = reassembly.push_chunk(chunk);
    if pushed.assembler.packets.len() > 0 {
        pushed.without_first()
    } else {
        pushed
    }
}

/// The table is full and the address is not in it.
#[derive(Debug, Clone, Copy, PartialEq, Eq, Structural)]
pub enum PeerTableError {
    CapacityExceeded,
}

/// The sessions of up to 50 peers, by hardware address. An entry is made
/// when a peer is first heard, and stays.
pub struct PeerTable {
    addresses: heapless::Vec<[u8; 6], MAX_NODES>,
    sessions: Vec<PeerPacketizer>,
}

impl View for PeerTable {
    type V = Seq<PeerModel>;

    closed spec fn view(&self) -> Seq<PeerModel> {
        Seq::new(
            self.sessions@.len(),
            |i: int|
                PeerModel {
                    address: held_addresses(self.addresses)[i]@,
                    last_heartbeat: self.sessions@[i].heard_at(),
                    packetizer: self.sessions@[i].reassembly(),
                },
        )
    }
}

/// No address has two entries.
pub open spec fn distinct_addresses(peers: Seq<PeerModel>) -> bool {
    forall|i: int, j: int|
        0 <= i < j < peers.len() ==> (#[trigger] peers[i]).address != (#[trigger] peers[j]).address
}

impl PeerTable {
    /// The invariant of the table: every constructor establishes it and
    /// every method keeps it.
    pub closed spec fn wf(&self) -> bool {
        &&& held_addresses(self.addresses).len() == self.sessions@.len()
        &&& self.sessions@.len() <= MAX_NODES
        &&& distinct_addresses(self@)
        &&& forall|i: int| 0 <= i < self.sessions@.len() ==> (#[trigger] self.sessions@[i]).wf()
    }

    /// A table that is valid is within its capacity and holds no address
    /// twice, and every address in it is six bytes long.
    pub proof fn lemma_wf(&self)
        requires
            self.wf(),
        ensures
            self@.len() <= MAX_NODES,
            distinct_addresses(self@),
            forall|i: int| 0 <= i < self@.len() ==> (#[trigger] self@[i]).address.len() == 6,
            forall|i: int| 0 <= i < self@.len() ==> (#[trigger] self@[i]).packetizer.wf(),
    {
    }

    pub fn new() -> (table: Self)
        ensures
            table.wf(),
            table@ == Seq::<PeerModel>::empty(),
    {
        let table = Self { addresses: addresses_new(), sessions: Vec::new() };
        assert(table@ =~= Seq::<PeerModel>::empty());
        table
    }

    /// How many peers have a session.
    pub fn len(&self) -> (count: usize)
        requires
            self.wf(),
        ensures
            count == self@.len(),
            count <= MAX_NODES,
    {
        self.sessions.len()
    }

    /// The index of the peer's session, if the peer has one.
    pub fn position(&self, sender_mac: &[u8; 6]) -> (index: Option<usize>)
        requires
            self.wf(),
        ensures
            index is Some <==> peer_index(self@, sender_mac@) < self@.len(),
            index matches Some(i) ==> i == peer_index(self@, sender_mac@),
    {
        let known = addresses_as_slice(&self.addresses);
        let mut i: usize = 0;
        while i < known.len()
            invariant
                i <= known@.len(),
                known@ == held_addresses(self.addresses),
                self.wf(),
                forall|k: int| 0 <= k < i ==> self@[k].address != sender_mac@,
            decreases known@.len() - i,
        {
            if same_address(&known[i], sender_mac) {
                proof {
                    lemma_peer_index(self@, sender_mac@);
                    let first = peer_index(self@, sender_mac@);
                    assert(self@[i as int].address == sender_mac@);
                    if first < i {
                        assert(self@[first].address != sender_mac@);
                    }
                }
                return Some(i);
            }
            assert(self@[i as int].address != sender_mac@);
            i = i + 1;
        }
        proof {
            lemma_peer_index(self@, sender_mac@);
            let first = peer_index(self@, sender_mac@);
            if first < self@.len() {
                assert(self@[first].address != sender_mac@);
            }
        }
        None
    }

    /// The index of the peer's session. A peer that has none gets one
    /// behind the others, unless the table is full: then it is refused and
    /// the table stays as it was.
    pub fn session_index(&mut self, sender_mac: &[u8; 6], now: u64) -> (index: Result<
        usize,
        PeerTableError,
    >)
        requires
            old(self).wf(),
        ensures
            final(self).wf(),
            final(self)@ == with_session(old(self)@, sender_mac@, now),
            index is Err <==> peer_index(old(self)@, sender_mac@) == MAX_NODES,
            index matches Ok(i) ==> i == peer_index(old(self)@, sender_mac@),
            index matches Ok(i) ==> i < final(self)@.len(),
    {
        proof {
            lemma_peer_index(self@, sender_mac@);
        }
        match self.position(sender_mac) {
            Some(i) => Ok(i),
            None => {
                let at = self.sessions.len();
                match addresses_push(&mut self.addresses, *sender_mac) {
                    Ok(()) => {
                        self.sessions.push(PeerPacketizer::new(now));
                        proof {
                            assert(self@ =~= old(self)@.push(new_peer(sender_mac@, now)));
                            assert forall|i: int, j: int| 0 <= i < j < self@.len() implies (
                            #[trigger] self@[i]).address != (#[trigger] self@[j]).address by {
                                if j < at {
                                    assert(old(self)@[i].address != old(self)@[j].address);
                                } else {
                                    assert(old(self)@[i].address != sender_mac@);
                                }
                            }
                        }
                        Ok(at)
                    },
                    Err(_) => Err(PeerTableError::CapacityExceeded),
                }
            },
        }
    }

    /// The peer at `index` sent `chunk` at `now`. The oldest complete
    /// packet of that peer is taken out, if there is one.
    pub fn receive(&mut self, index: usize, now: u64, chunk: &[u8]) -> (packet: Option<Vec<u8>>)
        requires
            old(self).wf(),
            index < old(self)@.len(),
        ensures
            final(self).wf(),
            received_packet(old(self)@[index as int].packetizer, chunk@) == match packet {
                Some(bytes) => Some(bytes@),
                None => None,
            },
            final(self)@ == old(self)@.update(
                index as int,
                PeerModel {
                    address: old(self)@[index as int].address,
                    last_heartbeat: now,
                    packetizer: after_receive(old(self)@[index as int].packetizer, chunk@),
                },
            ),
    {
        let packet = self.sessions[index].receive(now, chunk);
        proof {
            assert(self@ =~= old(self)@.update(
                index as int,
                PeerModel {
                    address: old(self)@[index as int].address,
                    last_heartbeat: now,
                    packetizer: after_receive(old(self)@[index as int].packetizer, chunk@),
                },
            ));
            assert forall|i: int, j: int| 0 <= i < j < self@.len() implies (#[trigger] self@[i]).address
                != (#[trigger] self@[j]).address by {
                assert(old(self)@[i].address != old(self)@[j].address);
            }
        }
        packet
    }
}

} // verus!
