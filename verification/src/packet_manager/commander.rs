//! The manager of the commander node, which announces its cluster and does
//! not listen.

use crate::hw_aes::AES_KEY_SIZE;
use crate::hw_hmac::BLOCK_SIZE;
use crate::packet_manager::{
    Action, ActionModel, ClusterCredential, Event, ManagerModel, PacketManager, PhaseModel, Step,
    HEARTBEAT_INTERVAL, MAX_BROADCAST_LEN,
};
use vstd::prelude::*;

verus! {

/// The heartbeat of the commander: the identifier of the cluster, and a
/// zero byte.
pub open spec fn commander_heartbeat(id: Seq<u8>) -> Seq<u8> {
    id.push(0u8)
}

/// The commander does not listen: where a packet manager would turn to the
/// transport, the tick is over.
pub open spec fn without_receiving(step: Step) -> Step {
    if step.action == ActionModel::Receive {
        step.state.abort()
    } else {
        step
    }
}

/// The commander's tick at `now`: a heartbeat is broadcast when it is due,
/// and the next is then due two seconds later.
pub open spec fn commander_tick(state: ManagerModel, now: u64) -> Step {
    if now >= state.next_heartbeat {
        without_receiving(
            ManagerModel {
                next_heartbeat: (now + HEARTBEAT_INTERVAL) as u64,
                ..state
            }.begin_broadcast(commander_heartbeat(state.id)),
        )
    } else {
        state.abort()
    }
}

/// The phases of a broadcast, and the phase between two ticks.
pub open spec fn sending_phase(phase: PhaseModel) -> bool {
    phase is Idle || phase is AwaitingIv || phase is Encrypting || phase is SealingChunk
        || phase is SendingChunk
}

/// Drives the protocol of the commander node: broadcasts what it is given,
/// and announces its cluster every two seconds.
pub struct CommanderPacketManager {
    manager: PacketManager,
}

impl View for CommanderPacketManager {
    type V = ManagerModel;

    closed spec fn view(&self) -> ManagerModel {
        self.manager@
    }
}

impl CommanderPacketManager {
    /// The invariant of the manager: every constructor establishes it and
    /// every method keeps it.
    pub closed spec fn wf(&self) -> bool {
        &&& self.manager.wf()
        &&& self.manager@.peers.len() == 0
        &&& sending_phase(self.manager@.phase)
    }

    /// What the invariant says of the model: the commander holds no
    /// session, is idle or busy with a broadcast, and its credential has
    /// the sizes of its fields.
    pub proof fn lemma_wf(&self)
        requires
            self.wf(),
        ensures
            self@.peers.len() == 0,
            sending_phase(self@.phase),
            self@.id.len() == 6,
            self@.key.len() == AES_KEY_SIZE,
            self@.inner_pad.len() == BLOCK_SIZE,
            self@.outer_pad.len() == BLOCK_SIZE,
    {
        self.manager.lemma_wf();
    }

    /// A manager for the commander of the cluster of `credential`, made at
    /// the time `now`. The first heartbeat is due at once.
    pub fn new(credential: ClusterCredential, now: u64) -> (commander: Self)
        ensures
            commander.wf(),
            commander@ == (ManagerModel {
                id: credential.id@,
                key: credential.key@,
                inner_pad: credential.inner_pad@,
                outer_pad: credential.outer_pad@,
                car_name: Seq::empty(),
                next_heartbeat: now,
                last_sequence: 0,
                peers: Seq::empty(),
                phase: PhaseModel::Idle,
            }),
    {
        let car_name = String::new();
        assert(vstd::utf8::encode_utf8(car_name@).len() == 0);
        CommanderPacketManager { manager: PacketManager::new(credential, car_name, now) }
    }

    /// Ends the tick where the packet manager would turn to the transport.
    fn without_receiving(&mut self, action: Action) -> (kept: Action)
        requires
            old(self).manager.wf(),
            old(self).manager@.peers.len() == 0,
            action@ == ActionModel::Receive || sending_phase(old(self).manager@.phase),
        ensures
            final(self).wf(),
            without_receiving(Step { state: old(self)@, action: action@ }) == (Step {
                state: final(self)@,
                action: kept@,
            }),
    {
        match action {
            Action::Receive => self.manager.resume(Event::NothingReceived),
            other => other,
        }
    }

    /// Sends a broadcast: the packet is encrypted, chunked, authenticated
    /// chunk by chunk, and sent. Whatever was under way is given up.
    ///
    /// NOTE: Packet may have zero bytes appended to the end due to
    /// encryption semantics. If this is not okay, a length indicator
    /// should be added to the packet
    pub fn broadcast_packet(&mut self, packet: Vec<u8>) -> (action: Action)
        requires
            old(self).wf(),
            packet@.len() <= MAX_BROADCAST_LEN,
        ensures
            final(self).wf(),
            without_receiving(old(self)@.begin_broadcast(packet@)) == (Step {
                state: final(self)@,
                action: action@,
            }),
    {
        let action = self.manager.broadcast_packet(packet);
        self.without_receiving(action)
    }

    /// Starts a tick at the time `now`: a heartbeat is broadcast when it is
    /// due. Whatever was under way is given up.
    pub fn tick(&mut self, now: u64) -> (action: Action)
        requires
            old(self).wf(),
            now + HEARTBEAT_INTERVAL <= u64::MAX,
        ensures
            final(self).wf(),
            commander_tick(old(self)@, now) == (Step { state: final(self)@, action: action@ }),
    {
        // Send heartbeat if necessary
        if self.manager.heartbeat_due(now) {
            let id = self.manager.cluster_id();
            let mut packet: Vec<u8> = Vec::new();
            let mut i: usize = 0;
            while i < 6
                invariant
                    i <= 6,
                    packet@ == id@.take(i as int),
                decreases 6 - i,
            {
                packet.push(id[i]);
                i = i + 1;
                assert(packet@ =~= id@.take(i as int));
            }
            packet.push(0);
            assert(packet@ =~= commander_heartbeat(id@));
            let action = self.manager.broadcast_packet(packet);
            self.without_receiving(action)
        } else {
            self.manager.resume(Event::NothingReceived)
        }
    }

    /// Takes what came of the last action, and gives the next action. An
    /// event that the manager does not wait for ends the tick.
    pub fn resume(&mut self, event: Event) -> (action: Action)
        requires
            old(self).wf(),
        ensures
            final(self).wf(),
            without_receiving(old(self)@.on_event(event@)) == (Step {
                state: final(self)@,
                action: action@,
            }),
    {
        proof {
            self.manager.lemma_wf();
        }
        let action = self.manager.resume(event);
        self.without_receiving(action)
    }
}

} // verus!
