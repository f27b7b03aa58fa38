//! Splits a packet into sequence-tagged chunks for a lossy transport, and
//! puts packets together again on the receiving side.

use crate::binary_packets::{be_bytes, be_digits, be_value, PacketReader};
use std::collections::VecDeque;
use vstd::prelude::*;
use vstd::slice::slice_subrange;

verus! {

/// 4 bytes for the message sequence number, 2 for the chunk sequence number
pub const TOLERANT_PACKET_OVERHEAD: usize = 6;

/// The most chunks that one message can be split into: the chunk sequence
/// number is 16 bits wide and starts at 1.
pub const MAX_CHUNKS: usize = 65535;

/// The header in front of every chunk.
pub open spec fn chunk_header(msg_seq: u32, chunk_seq: nat) -> Seq<u8> {
    be_bytes(msg_seq as nat, 4) + be_bytes(chunk_seq, 2)
}

/// The chunks that carry `data`, `payload_size` bytes at a time, when
/// `produced` chunks of the message went before them.
pub open spec fn split_from(msg_seq: u32, produced: nat, data: Seq<u8>, payload_size: nat) -> Seq<
    Seq<u8>,
>
    decreases data.len(),
{
    if data.len() == 0 || payload_size == 0 {
        Seq::empty()
    } else {
        let taken = if payload_size < data.len() {
            payload_size as int
        } else {
            data.len() as int
        };
        seq![chunk_header(msg_seq, produced + 1) + data.take(taken)] + split_from(
            msg_seq,
            produced + 1,
            data.skip(taken),
            payload_size,
        )
    }
}

/// All the chunks of the message `data` with number `msg_seq`.
pub open spec fn split_chunks(msg_seq: u32, data: Seq<u8>, payload_size: nat) -> Seq<Seq<u8>> {
    split_from(msg_seq, 0, data, payload_size)
}

/// How many chunks a message of `len` bytes is split into.
pub open spec fn chunk_count(len: nat, payload_size: nat) -> nat
    decreases len,
{
    if len == 0 || payload_size == 0 {
        0
    } else if payload_size < len {
        1 + chunk_count((len - payload_size) as nat, payload_size)
    } else {
        1
    }
}

/// `split_from` yields `chunk_count` chunks.
pub proof fn lemma_split_len(msg_seq: u32, produced: nat, data: Seq<u8>, payload_size: nat)
    ensures
        split_from(msg_seq, produced, data, payload_size).len() == chunk_count(
            data.len(),
            payload_size,
        ),
    decreases data.len(),
{
    if data.len() != 0 && payload_size != 0 {
        if payload_size < data.len() {
            lemma_split_len(msg_seq, produced + 1, data.skip(payload_size as int), payload_size);
        } else {
            lemma_split_len(msg_seq, produced + 1, data.skip(data.len() as int), payload_size);
        }
    }
}

/// A message of at most `k` payloads is split into at most `k` chunks.
pub proof fn lemma_chunk_count_bound(len: nat, payload_size: nat, k: nat)
    requires
        payload_size > 0,
        len <= k * payload_size,
    ensures
        chunk_count(len, payload_size) <= k,
    decreases len,
{
    if len != 0 {
        assert(k >= 1) by (nonlinear_arith)
            requires
                0 < len <= k * payload_size,
        ;
        if payload_size < len {
            assert((k - 1) * payload_size == k * payload_size - payload_size)
                by (nonlinear_arith);
            lemma_chunk_count_bound((len - payload_size) as nat, payload_size, (k - 1) as nat);
        }
    }
}

/// Disassembles a large packet into smaller ones.
///
/// Works with unreliable transports by adding sequencing
/// information to each packet. This signals to the client
/// that the packet should be dropped since it was not received
/// in full.
///
/// This is the transmitting end of `TolerantPacketReassembler`.
pub struct TolerantPacketDisassembler<const MAX_CHUNK_SIZE: usize> {
    msg_seq: u32,
}

impl<const MAX_CHUNK_SIZE: usize> TolerantPacketDisassembler<MAX_CHUNK_SIZE> {
    /// The number of the message that was split last, 0 before the first.
    pub closed spec fn last_sequence(&self) -> u32 {
        self.msg_seq
    }

    /// The number that the next message gets: one more, wrapping at the end
    /// of the 32-bit range.
    pub open spec fn next_sequence(&self) -> u32 {
        if self.last_sequence() == u32::MAX {
            0
        } else {
            (self.last_sequence() + 1) as u32
        }
    }

    /// The payload bytes that one chunk carries.
    pub open spec fn payload_size() -> nat {
        (MAX_CHUNK_SIZE - TOLERANT_PACKET_OVERHEAD) as nat
    }

    /// A chunk must hold its header and one payload byte at least.
    pub fn new() -> (disassembler: Self)
        requires
            MAX_CHUNK_SIZE >= TOLERANT_PACKET_OVERHEAD + 1,
        ensures
            disassembler.last_sequence() == 0,
    {
        Self { msg_seq: 0 }
    }

    /// Starts the next message: the returned producer yields its chunks in
    /// order, once.
    pub fn split_packet<'a>(&mut self, packet: &'a [u8]) -> (chunks: TolerantPacketIterator<
        'a,
        MAX_CHUNK_SIZE,
    >)
        requires
            MAX_CHUNK_SIZE >= TOLERANT_PACKET_OVERHEAD + 1,
            packet@.len() <= MAX_CHUNKS * (MAX_CHUNK_SIZE - TOLERANT_PACKET_OVERHEAD),
        ensures
            final(self).last_sequence() == old(self).next_sequence(),
            chunks.pending() == split_chunks(
                old(self).next_sequence(),
                packet@,
                Self::payload_size(),
            ),
    {
        self.msg_seq = self.msg_seq.wrapping_add(1);
        proof {
            lemma_chunk_count_bound(
                packet@.len(),
                (MAX_CHUNK_SIZE - TOLERANT_PACKET_OVERHEAD) as nat,
                MAX_CHUNKS as nat,
            );
            assert(packet@.skip(0) =~= packet@);
        }
        TolerantPacketIterator::<'a, MAX_CHUNK_SIZE> {
            msg_seq: self.msg_seq,
            chunk_seq: 0,
            cursor: 0,
            data: packet,
        }
    }
}

/// Yields chunks of a packet.
///
/// Meant to be created via `TolerantPacketDisassembler::split_packet`
pub struct TolerantPacketIterator<'a, const MAX_CHUNK_SIZE: usize> {
    msg_seq: u32,
    chunk_seq: u16,
    cursor: usize,
    data: &'a [u8],
}

impl<'a, const MAX_CHUNK_SIZE: usize> TolerantPacketIterator<'a, MAX_CHUNK_SIZE> {
    #[verifier::type_invariant]
    spec fn within_limits(&self) -> bool {
        &&& MAX_CHUNK_SIZE >= TOLERANT_PACKET_OVERHEAD + 1
        &&& self.cursor <= self.data@.len()
        &&& self.chunk_seq + chunk_count(
            (self.data@.len() - self.cursor) as nat,
            (MAX_CHUNK_SIZE - TOLERANT_PACKET_OVERHEAD) as nat,
        ) <= MAX_CHUNKS
    }

    /// The chunks that have not been handed out yet, in order.
    pub closed spec fn pending(&self) -> Seq<Seq<u8>> {
        split_from(
            self.msg_seq,
            self.chunk_seq as nat,
            self.data@.skip(self.cursor as int),
            (MAX_CHUNK_SIZE - TOLERANT_PACKET_OVERHEAD) as nat,
        )
    }

    /// Writes the next data chunk to `chunk`.
    ///
    /// Returns the number of bytes written, if any.
    pub fn get_chunk(&mut self, chunk: &mut [u8; MAX_CHUNK_SIZE]) -> (written: Option<usize>)
        ensures
            written is Some <==> old(self).pending().len() > 0,
            written matches Some(n) ==> {
                &&& TOLERANT_PACKET_OVERHEAD < n <= MAX_CHUNK_SIZE
                &&& final(chunk)@.take(n as int) == old(self).pending()[0]
                &&& final(chunk)@.skip(n as int) == old(chunk)@.skip(n as int)
                &&& final(self).pending() == old(self).pending().skip(1)
            },
            written is None ==> final(chunk)@ == old(chunk)@
                && final(self).pending() == old(self).pending(),
    {
        proof {
            use_type_invariant(&*self);
        }
        let total = self.data.len();
        if self.cursor >= total {
            assert(self.data@.skip(self.cursor as int).len() == 0);
            return None;
        }
        let ghost rest = self.data@.skip(self.cursor as int);
        let ghost payload_size = (MAX_CHUNK_SIZE - TOLERANT_PACKET_OVERHEAD) as nat;
        let remaining = total - self.cursor;
        let advance = if MAX_CHUNK_SIZE - TOLERANT_PACKET_OVERHEAD < remaining {
            MAX_CHUNK_SIZE - TOLERANT_PACKET_OVERHEAD
        } else {
            remaining
        };
        let next_seq: u16 = self.chunk_seq + 1;
        let msg_seq_bytes = be_digits(self.msg_seq as u128, 4);
        let chunk_seq_bytes = be_digits(next_seq as u128, 2);
        let ghost header = chunk_header(self.msg_seq, next_seq as nat);
        proof {
            crate::binary_packets::lemma_be_bytes_len(self.msg_seq as nat, 4);
            crate::binary_packets::lemma_be_bytes_len(next_seq as nat, 2);
        }
        let ghost untouched = chunk@;
        let mut i: usize = 0;
        while i < 4
            invariant
                i <= 4,
                MAX_CHUNK_SIZE >= TOLERANT_PACKET_OVERHEAD + 1,
                chunk@.len() == MAX_CHUNK_SIZE == untouched.len(),
                chunk@.take(i as int) == msg_seq_bytes@.subrange(0, i as int),
                chunk@.skip(i as int) == untouched.skip(i as int),
            decreases 4 - i,
        {
            let ghost before = chunk@;
            chunk[i] = msg_seq_bytes[i];
            i = i + 1;
            assert(chunk@.take(i as int) =~= before.take(i - 1).push(msg_seq_bytes[i - 1]));
            assert(chunk@.take(i as int) =~= msg_seq_bytes@.subrange(0, i as int));
            assert(chunk@.skip(i as int) =~= before.skip(i - 1).skip(1));
            assert(untouched.skip(i as int) =~= untouched.skip(i - 1).skip(1));
        }
        let mut j: usize = 0;
        while j < 2
            invariant
                j <= 2,
                MAX_CHUNK_SIZE >= TOLERANT_PACKET_OVERHEAD + 1,
                chunk@.len() == MAX_CHUNK_SIZE == untouched.len(),
                chunk@.take(4 + j) == msg_seq_bytes@.subrange(0, 4) + chunk_seq_bytes@.subrange(
                    0,
                    j as int,
                ),
                chunk@.skip(4 + j) == untouched.skip(4 + j),
            decreases 2 - j,
        {
            let ghost before = chunk@;
            chunk[j + 4] = chunk_seq_bytes[j];
            j = j + 1;
            assert(chunk@.take(4 + j) =~= before.take(4 + j - 1).push(chunk_seq_bytes[j - 1]));
            assert(chunk@.take(4 + j) =~= msg_seq_bytes@.subrange(0, 4)
                + chunk_seq_bytes@.subrange(0, j as int));
            assert(chunk@.skip(4 + j) =~= before.skip(4 + j - 1).skip(1));
            assert(untouched.skip(4 + j) =~= untouched.skip(4 + j - 1).skip(1));
        }
        assert(chunk@.take(6) == header);
        let start_cursor = self.cursor;
        let mut k: usize = 0;
        while k < advance
            invariant
                k <= advance <= MAX_CHUNK_SIZE - TOLERANT_PACKET_OVERHEAD,
                start_cursor + advance <= total == self.data@.len(),
                self.cursor == start_cursor,
                rest == self.data@.skip(start_cursor as int),
                chunk@.len() == MAX_CHUNK_SIZE == untouched.len(),
                chunk@.take(6 + k) == header + rest.take(k as int),
                chunk@.skip(6 + k) == untouched.skip(6 + k),
                header.len() == 6,
            decreases advance - k,
        {
            let ghost before = chunk@;
            chunk[k + TOLERANT_PACKET_OVERHEAD] = self.data[start_cursor + k];
            k = k + 1;
            assert(chunk@.take(6 + k) =~= before.take(6 + k - 1).push(rest[k - 1]));
            assert(chunk@.take(6 + k) =~= header + rest.take(k as int));
            assert(chunk@.skip(6 + k) =~= before.skip(6 + k - 1).skip(1));
            assert(untouched.skip(6 + k) =~= untouched.skip(6 + k - 1).skip(1));
        }
        proof {
            assert(rest.skip(advance as int) =~= self.data@.skip(start_cursor + advance));
            assert(rest.len() == remaining);
            assert(old(self).pending() == seq![header + rest.take(advance as int)] + split_from(
                self.msg_seq,
                next_seq as nat,
                rest.skip(advance as int),
                payload_size,
            ));
            assert(old(self).pending().skip(1) =~= split_from(
                self.msg_seq,
                next_seq as nat,
                rest.skip(advance as int),
                payload_size,
            ));
        }
        *self = TolerantPacketIterator {
            msg_seq: self.msg_seq,
            chunk_seq: next_seq,
            cursor: start_cursor + advance,
            data: self.data,
        };
        Some(advance + TOLERANT_PACKET_OVERHEAD)
    }
}

/// How much of the next packet's length prefix a stream has shown.
#[derive(Debug, Clone, Copy, PartialEq, Eq, Structural)]
pub enum ExpectedSize {
    /// No byte of the length has arrived.
    Unknown,
    /// The high byte of the length has arrived.
    Partial(u8),
    /// The length is known, and is not zero.
    Full(u16),
}

/// What a stream assembler holds: where it stands in the packet under way,
/// and the packets that are complete and not yet taken.
pub struct AssemblerModel {
    pub expected: ExpectedSize,
    pub buffer: Seq<u8>,
    pub packets: Seq<Seq<u8>>,
}

impl AssemblerModel {
    /// Nothing received, nothing complete.
    pub open spec fn empty() -> Self {
        AssemblerModel { expected: ExpectedSize::Unknown, buffer: Seq::empty(), packets: Seq::empty() }
    }

    /// The buffer holds payload only while a length is known, and then less
    /// than that length.
    pub open spec fn wf(self) -> bool {
        match self.expected {
            ExpectedSize::Full(n) => 0 < n && self.buffer.len() < n,
            _ => self.buffer.len() == 0,
        }
    }

    /// Whether no packet is under way.
    pub open spec fn idle(self) -> bool {
        self.expected == ExpectedSize::Unknown && self.buffer.len() == 0
    }

    /// The packet under way is given up; complete packets stay.
    pub open spec fn reset(self) -> Self {
        AssemblerModel { expected: ExpectedSize::Unknown, buffer: Seq::empty(), packets: self.packets }
    }

    /// One more byte of the stream.
    pub open spec fn step(self, byte: u8) -> Self {
        match self.expected {
            ExpectedSize::Unknown => AssemblerModel {
                expected: ExpectedSize::Partial(byte),
                ..self
            },
            ExpectedSize::Partial(high) => {
                let length = (high as nat * 256 + byte as nat) as u16;
                if length == 0 {
                    AssemblerModel {
                        expected: ExpectedSize::Unknown,
                        buffer: Seq::empty(),
                        packets: self.packets.push(Seq::empty()),
                    }
                } else {
                    AssemblerModel {
                        expected: ExpectedSize::Full(length),
                        buffer: Seq::empty(),
                        packets: self.packets,
                    }
                }
            },
            ExpectedSize::Full(length) => {
                let grown = self.buffer.push(byte);
                if grown.len() >= length {
                    AssemblerModel {
                        expected: ExpectedSize::Unknown,
                        buffer: Seq::empty(),
                        packets: self.packets.push(grown),
                    }
                } else {
                    AssemblerModel { buffer: grown, ..self }
                }
            },
        }
    }

    /// A stretch of the stream, byte by byte.
    pub open spec fn feed(self, bytes: Seq<u8>) -> Self
        decreases bytes.len(),
    {
        if bytes.len() == 0 {
            self
        } else {
            self.step(bytes[0]).feed(bytes.skip(1))
        }
    }

    /// The first complete packet is taken out.
    pub open spec fn without_first(self) -> Self {
        AssemblerModel { packets: self.packets.skip(1), ..self }
    }
}

/// Every step keeps the model well-formed.
pub proof fn lemma_step_wf(model: AssemblerModel, byte: u8)
    requires
        model.wf(),
    ensures
        model.step(byte).wf(),
{
}

/// Feeding keeps the model well-formed.
pub proof fn lemma_feed_wf(model: AssemblerModel, bytes: Seq<u8>)
    requires
        model.wf(),
    ensures
        model.feed(bytes).wf(),
    decreases bytes.len(),
{
    if bytes.len() > 0 {
        lemma_feed_wf(model.step(bytes[0]), bytes.skip(1));
    }
}

/// A stream may be cut anywhere: feeding the two parts one after the other
/// is feeding the whole.
pub proof fn lemma_feed_concat(model: AssemblerModel, first: Seq<u8>, second: Seq<u8>)
    ensures
        model.feed(first + second) == model.feed(first).feed(second),
    decreases first.len(),
{
    if first.len() == 0 {
        assert(first + second =~= second);
    } else {
        assert((first + second)[0] == first[0]);
        assert((first + second).skip(1) =~= first.skip(1) + second);
        lemma_feed_concat(model.step(first[0]), first.skip(1), second);
    }
}

/// While a packet of known length is under way, payload bytes that do not
/// complete it are collected.
pub proof fn lemma_feed_payload_part(model: AssemblerModel, bytes: Seq<u8>)
    requires
        model.expected matches ExpectedSize::Full(length) && model.buffer.len() + bytes.len()
            < length,
    ensures
        model.feed(bytes) == (AssemblerModel { buffer: model.buffer + bytes, ..model }),
    decreases bytes.len(),
{
    if bytes.len() == 0 {
        assert(model.buffer + bytes =~= model.buffer);
    } else {
        let next = model.step(bytes[0]);
        lemma_feed_payload_part(next, bytes.skip(1));
        assert(next.buffer + bytes.skip(1) =~= model.buffer + bytes);
    }
}

/// While a packet of known length is under way, the payload bytes that
/// complete it put it behind the complete ones.
pub proof fn lemma_feed_payload_end(model: AssemblerModel, bytes: Seq<u8>)
    requires
        model.wf(),
        model.expected matches ExpectedSize::Full(length) && model.buffer.len() + bytes.len()
            == length,
    ensures
        model.feed(bytes) == (AssemblerModel {
            expected: ExpectedSize::Unknown,
            buffer: Seq::empty(),
            packets: model.packets.push(model.buffer + bytes),
        }),
    decreases bytes.len(),
{
    let next = model.step(bytes[0]);
    if bytes.len() == 1 {
        assert(model.buffer + bytes =~= model.buffer.push(bytes[0]));
        assert(next.feed(bytes.skip(1)) == next);
    } else {
        lemma_feed_payload_end(next, bytes.skip(1));
        assert(next.buffer + bytes.skip(1) =~= model.buffer + bytes);
    }
}

/// Re-assembles chunked packets into the form they had before chunking.
///
/// Assumes reliable ordered transport.
///
/// Does not make any assumptions whatsoever about chunk boundaries.
pub struct PacketAssembler {
    packets: VecDeque<Vec<u8>>,
    expected_size: ExpectedSize,
    buffer: Vec<u8>,
}

impl View for PacketAssembler {
    type V = AssemblerModel;

    closed spec fn view(&self) -> AssemblerModel {
        AssemblerModel {
            expected: self.expected_size,
            buffer: self.buffer@,
            packets: self.packets@.map_values(|packet: Vec<u8>| packet@),
        }
    }
}

impl PacketAssembler {
    /// The invariant of the assembler: every constructor establishes it and
    /// every method keeps it.
    pub open spec fn wf(&self) -> bool {
        self@.wf()
    }

    pub fn new() -> (assembler: Self)
        ensures
            assembler@ == AssemblerModel::empty(),
            assembler.wf(),
    {
        let assembler = Self {
            packets: VecDeque::new(),
            expected_size: ExpectedSize::Unknown,
            buffer: Vec::new(),
        };
        assert(assembler@.packets =~= Seq::empty());
        assembler
    }

    /// Gives up the packet under way.
    pub(crate) fn reset(&mut self)
        ensures
            final(self)@ == old(self)@.reset(),
            final(self).wf(),
    {
        self.buffer = Vec::new();
        self.expected_size = ExpectedSize::Unknown;
    }

    /// Puts a complete packet behind the ones that wait.
    fn enqueue(&mut self, packet: Vec<u8>)
        requires
            old(self).buffer@.len() == 0,
        ensures
            final(self)@ == (AssemblerModel {
                expected: ExpectedSize::Unknown,
                buffer: Seq::empty(),
                packets: old(self)@.packets.push(packet@),
            }),
    {
        self.expected_size = ExpectedSize::Unknown;
        self.packets.push_back(packet);
        assert(self@.packets =~= old(self)@.packets.push(packet@));
        assert(self@.buffer =~= Seq::empty());
    }

    /// Takes in the next stretch of the stream, wherever it was cut.
    pub fn push_data(&mut self, chunk: &[u8])
        requires
            old(self).wf(),
        ensures
            final(self)@ == old(self)@.feed(chunk@),
            final(self).wf(),
    {
        let total = chunk.len();
        let mut at: usize = 0;
        assert(chunk@.skip(0) =~= chunk@);
        while at < total
            invariant
                at <= total == chunk@.len(),
                self.wf(),
                self@.feed(chunk@.skip(at as int)) == old(self)@.feed(chunk@),
            decreases total - at,
        {
            let ghost before = self@;
            let ghost rest = chunk@.skip(at as int);
            match self.expected_size {
                ExpectedSize::Unknown => {
                    self.expected_size = ExpectedSize::Partial(chunk[at]);
                    at = at + 1;
                    assert(chunk@.skip(at as int) =~= rest.skip(1));
                },
                ExpectedSize::Partial(high) => {
                    let length: u16 = high as u16 * 256 + chunk[at] as u16;
                    if length == 0 {
                        self.enqueue(Vec::new());
                    } else {
                        self.expected_size = ExpectedSize::Full(length);
                    }
                    at = at + 1;
                    assert(chunk@.skip(at as int) =~= rest.skip(1));
                    assert(self@.buffer =~= Seq::<u8>::empty());
                    assert(self@ == before.step(rest[0]));
                },
                ExpectedSize::Full(length) => {
                    let missing = length as usize - self.buffer.len();
                    let available = total - at;
                    if available < missing {
                        let part = slice_subrange(chunk, at, total);
                        self.buffer.extend_from_slice(part);
                        proof {
                            assert(part@ =~= rest);
                            assert(self.buffer@ =~= before.buffer + rest);
                            lemma_feed_payload_part(before, rest);
                            assert(chunk@.skip(total as int) =~= Seq::<u8>::empty());
                        }
                        at = total;
                    } else {
                        let part = slice_subrange(chunk, at, at + missing);
                        let mut packet: Vec<u8> = Vec::new();
                        core::mem::swap(&mut self.buffer, &mut packet);
                        packet.extend_from_slice(part);
                        self.enqueue(packet);
                        proof {
                            assert(part@ =~= rest.take(missing as int));
                            assert(packet@ =~= before.buffer + part@);
                            lemma_feed_payload_end(before, part@);
                            assert(rest =~= part@ + rest.skip(missing as int));
                            lemma_feed_concat(before, part@, rest.skip(missing as int));
                            assert(chunk@.skip(at + missing) =~= rest.skip(missing as int));
                        }
                        at = at + missing;
                    }
                },
            }
        }
        assert(chunk@.skip(at as int) =~= Seq::<u8>::empty());
    }

    /// Takes the oldest complete packet, if there is one.
    pub fn next(&mut self) -> (packet: Option<Vec<u8>>)
        ensures
            packet is Some <==> old(self)@.packets.len() > 0,
            packet matches Some(bytes) ==> bytes@ == old(self)@.packets[0]
                && final(self)@ == old(self)@.without_first(),
            packet is None ==> final(self)@ == old(self)@,
            old(self).wf() ==> final(self).wf(),
    {
        let packet = self.packets.pop_front();
        proof {
            assert(self@.packets =~= if packet is Some {
                old(self)@.packets.skip(1)
            } else {
                old(self)@.packets
            });
        }
        packet
    }
}

/// The message sequence number that a chunk carries in its header.
pub open spec fn chunk_msg_seq(chunk: Seq<u8>) -> u32 {
    be_value(chunk.take(4)) as u32
}

/// The chunk sequence number that a chunk carries in its header.
pub open spec fn chunk_chunk_seq(chunk: Seq<u8>) -> u16 {
    be_value(chunk.subrange(4, 6)) as u16
}

/// What a loss-tolerant reassembler holds: the number of the message under
/// way, the number of the chunk accepted last, and the stream assembler.
pub struct ReassemblerModel {
    pub msg_seq: u32,
    pub chunk_seq: u16,
    pub assembler: AssemblerModel,
}

impl ReassemblerModel {
    /// Nothing received.
    pub open spec fn empty() -> Self {
        ReassemblerModel { msg_seq: 0, chunk_seq: 0, assembler: AssemblerModel::empty() }
    }

    pub open spec fn wf(self) -> bool {
        self.assembler.wf()
    }

    /// The state after a chunk of the message under way was accepted.
    pub open spec fn accept(self, chunk: Seq<u8>) -> Self {
        ReassemblerModel {
            msg_seq: chunk_msg_seq(chunk),
            chunk_seq: chunk_chunk_seq(chunk),
            assembler: self.assembler.feed(chunk.skip(TOLERANT_PACKET_OVERHEAD as int)),
        }
    }

    /// One chunk arrives.
    ///
    /// A chunk too short for its header is dropped, and so is one of a
    /// message number below the last one seen. A greater message number
    /// gives up the message under way; its chunk is then accepted only if it
    /// is the first of its message. A chunk of the last message number seen
    /// is accepted only as the continuation of a message under way: a chunk
    /// of that message was accepted before, and this is the next one.
    pub open spec fn push_chunk(self, chunk: Seq<u8>) -> Self {
        if chunk.len() < TOLERANT_PACKET_OVERHEAD {
            self
        } else if chunk_msg_seq(chunk) < self.msg_seq {
            self
        } else if chunk_msg_seq(chunk) > self.msg_seq {
            let fresh = ReassemblerModel {
                msg_seq: chunk_msg_seq(chunk),
                chunk_seq: 0,
                assembler: self.assembler.reset(),
            };
            if chunk_chunk_seq(chunk) == 1 {
                fresh.accept(chunk)
            } else {
                fresh
            }
        } else if self.chunk_seq >= 1 && chunk_chunk_seq(chunk) == self.chunk_seq + 1 {
            self.accept(chunk)
        } else {
            self
        }
    }

    /// Chunks arrive one after the other.
    pub open spec fn push_chunks(self, chunks: Seq<Seq<u8>>) -> Self
        decreases chunks.len(),
    {
        if chunks.len() == 0 {
            self
        } else {
            self.push_chunk(chunks[0]).push_chunks(chunks.skip(1))
        }
    }

    /// The first complete packet is taken out.
    pub open spec fn without_first(self) -> Self {
        ReassemblerModel { assembler: self.assembler.without_first(), ..self }
    }
}

/// Re-assembles chunked packets into the form they had before chunking.
///
/// Works with unreliable transports, dropping the in-progress
/// packet when an error is detected. This is lossy, and does
/// not request retransmission.
///
/// This is the receiving end of `TolerantPacketDisassembler`.
pub struct TolerantPacketReassembler {
    msg_seq: u32,
    chunk_seq: u16,
    assembler: PacketAssembler,
}

impl View for TolerantPacketReassembler {
    type V = ReassemblerModel;

    closed spec fn view(&self) -> ReassemblerModel {
        ReassemblerModel {
            msg_seq: self.msg_seq,
            chunk_seq: self.chunk_seq,
            assembler: self.assembler@,
        }
    }
}

impl TolerantPacketReassembler {
    /// The invariant of the reassembler: every constructor establishes it
    /// and every method keeps it.
    pub open spec fn wf(&self) -> bool {
        self@.wf()
    }

    pub fn new() -> (reassembler: Self)
        ensures
            reassembler@ == ReassemblerModel::empty(),
            reassembler.wf(),
    {
        Self { msg_seq: 0, chunk_seq: 0, assembler: PacketAssembler::new() }
    }

    /// Takes in one chunk as it came off the transport, header included.
    pub fn push_data(&mut self, chunk: &[u8])
        requires
            old(self).wf(),
        ensures
            final(self)@ == old(self)@.push_chunk(chunk@),
            final(self).wf(),
    {
        let mut packet_reader = PacketReader::new(chunk);
        assert(packet_reader.remaining() =~= chunk@);
        let msg_seq = match packet_reader.read_u32() {
            Some(msg_seq) => msg_seq,
            None => {
                return ;
            },
        };
        let ghost behind_msg_seq = packet_reader.remaining();
        let chunk_seq = match packet_reader.read_u16() {
            Some(chunk_seq) => chunk_seq,
            None => {
                return ;
            },
        };
        assert(behind_msg_seq.take(2) =~= chunk@.subrange(4, 6));
        let data = packet_reader.get_remainder();
        assert(data@ =~= chunk@.skip(TOLERANT_PACKET_OVERHEAD as int));

        // Skip chunks of messages that are over
        if msg_seq < self.msg_seq {
            return ;
        }
        if self.msg_seq < msg_seq {
            // If we found a new message, clear the buffers of incomplete ones
            self.msg_seq = msg_seq;
            self.chunk_seq = 0;
            self.assembler.reset();
        } else if self.chunk_seq == 0 {
            // No chunk of this message was accepted, so none can follow
            return ;
        }
        // If we missed a chunk, or see one again, don't keep trying to parse the message

        if chunk_seq as u32 != self.chunk_seq as u32 + 1 {
            return ;
        }
        // If all checks cleared, go ahead and push the data onto the stream

        self.chunk_seq = chunk_seq;
        self.assembler.push_data(data);
    }

    /// Takes the oldest complete packet, if there is one.
    pub fn next(&mut self) -> (packet: Option<Vec<u8>>)
        ensures
            packet is Some <==> old(self)@.assembler.packets.len() > 0,
            packet matches Some(bytes) ==> bytes@ == old(self)@.assembler.packets[0]
                && final(self)@ == old(self)@.without_first(),
            packet is None ==> final(self)@ == old(self)@,
            old(self).wf() ==> final(self).wf(),
    {
        self.assembler.next()
    }
}

} // verus!
