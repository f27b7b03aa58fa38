//! What holds between the chunker and the two reassemblers.

use crate::binary_packets::{
    be_bytes, length_prefixed, lemma_be_bytes_len, lemma_be_value_of_be_bytes,
    lemma_pow256_values,
};
use crate::packetizer::{
    chunk_chunk_seq, chunk_count, chunk_header, chunk_msg_seq, lemma_feed_concat,
    lemma_feed_payload_end, lemma_feed_payload_part, split_chunks, split_from,
    AssemblerModel, ExpectedSize, ReassemblerModel, MAX_CHUNKS,
};
use vstd::prelude::*;

verus! {

/// Feeding one byte is one step.
proof fn lemma_feed_first(model: AssemblerModel, bytes: Seq<u8>)
    requires
        bytes.len() > 0,
    ensures
        model.feed(bytes) == model.step(bytes[0]).feed(bytes.skip(1)),
        bytes.len() == 1 ==> model.feed(bytes) == model.step(bytes[0]),
{
    if bytes.len() == 1 {
        assert(bytes.skip(1).len() == 0);
        assert(model.step(bytes[0]).feed(bytes.skip(1)) == model.step(bytes[0]));
    }
}

/// Feeding a stream one byte per call.
pub open spec fn feed_bytewise(model: AssemblerModel, bytes: Seq<u8>) -> AssemblerModel
    decreases bytes.len(),
{
    if bytes.len() == 0 {
        model
    } else {
        feed_bytewise(model.feed(seq![bytes[0]]), bytes.skip(1))
    }
}

/// The strict assembler ends in the same state, with the same complete
/// packets, whether a stream reaches it in one call or one byte per call.
pub proof fn lemma_bytewise_feed_is_single_feed(model: AssemblerModel, bytes: Seq<u8>)
    ensures
        feed_bytewise(model, bytes) == model.feed(bytes),
    decreases bytes.len(),
{
    if bytes.len() > 0 {
        let one = seq![bytes[0]];
        lemma_feed_first(model, one);
        lemma_bytewise_feed_is_single_feed(model.feed(one), bytes.skip(1));
    }
}

/// An assembler with no packet under way that is fed a length-prefixed
/// packet holds that packet behind the complete ones, and again has no
/// packet under way.
pub proof fn lemma_framed_packet_completes(model: AssemblerModel, payload: Seq<u8>)
    requires
        model.idle(),
        payload.len() <= 65535,
    ensures
        model.feed(length_prefixed(payload)) == (AssemblerModel {
            expected: ExpectedSize::Unknown,
            buffer: Seq::empty(),
            packets: model.packets.push(payload),
        }),
{
    let frame = length_prefixed(payload);
    let prefix = be_bytes(payload.len(), 2);
    lemma_prefix_digits(payload.len());
    let high = prefix[0];
    let low = prefix[1];
    assert(frame[0] == high);
    assert(frame.skip(1)[0] == low);
    assert(frame.skip(1).skip(1) =~= payload);
    let known = model.step(high).step(low);
    lemma_feed_first(model, frame);
    lemma_feed_first(model.step(high), frame.skip(1));
    assert(model.feed(frame) == known.feed(payload));
    assert(model.buffer =~= Seq::<u8>::empty());
    if payload.len() == 0 {
        assert(payload =~= Seq::<u8>::empty());
    } else {
        lemma_feed_payload_end(known, payload);
        assert(known.buffer + payload =~= payload);
    }
}

/// The two digits of a 16-bit length prefix.
proof fn lemma_prefix_digits(len: nat)
    requires
        len <= 65535,
    ensures
        be_bytes(len, 2).len() == 2,
        be_bytes(len, 2)[0] as nat * 256 + be_bytes(len, 2)[1] as nat == len,
{
    reveal_with_fuel(be_bytes, 3);
}

/// An assembler with no packet under way that is fed less than a whole
/// length-prefixed packet completes nothing.
pub proof fn lemma_partial_frame_completes_nothing(
    model: AssemblerModel,
    payload: Seq<u8>,
    n: int,
)
    requires
        model.idle(),
        payload.len() <= 65535,
        0 <= n < length_prefixed(payload).len(),
    ensures
        model.feed(length_prefixed(payload).take(n)).packets == model.packets,
{
    let frame = length_prefixed(payload);
    let part = frame.take(n);
    lemma_prefix_digits(payload.len());
    let prefix = be_bytes(payload.len(), 2);
    if n == 0 {
    } else if n == 1 {
        lemma_feed_first(model, part);
    } else {
        let known = model.step(prefix[0]).step(prefix[1]);
        assert(part[0] == prefix[0]);
        assert(part.skip(1)[0] == prefix[1]);
        let body = part.skip(1).skip(1);
        assert(body =~= payload.take(n - 2));
        lemma_feed_first(model, part);
        lemma_feed_first(model.step(prefix[0]), part.skip(1));
        assert(model.feed(part) == known.feed(body));
        lemma_feed_payload_part(known, body);
    }
}

/// A chunk that the chunker made carries its two sequence numbers and its
/// payload where the reassembler looks for them.
pub proof fn lemma_chunk_parses(msg_seq: u32, chunk_seq: nat, payload: Seq<u8>)
    requires
        chunk_seq <= MAX_CHUNKS,
    ensures
        (chunk_header(msg_seq, chunk_seq) + payload).len() == 6 + payload.len(),
        chunk_msg_seq(chunk_header(msg_seq, chunk_seq) + payload) == msg_seq,
        chunk_chunk_seq(chunk_header(msg_seq, chunk_seq) + payload) == chunk_seq,
        (chunk_header(msg_seq, chunk_seq) + payload).skip(6) == payload,
{
    let chunk = chunk_header(msg_seq, chunk_seq) + payload;
    lemma_be_bytes_len(msg_seq as nat, 4);
    lemma_be_bytes_len(chunk_seq, 2);
    lemma_pow256_values();
    lemma_be_value_of_be_bytes(msg_seq as nat, 4);
    lemma_be_value_of_be_bytes(chunk_seq, 2);
    assert(chunk.take(4) =~= be_bytes(msg_seq as nat, 4));
    assert(chunk.subrange(4, 6) =~= be_bytes(chunk_seq, 2));
    assert(chunk.skip(6) =~= payload);
}

/// The state of a reassembler that stands inside message `msg_seq`.
pub open spec fn inside_message(
    msg_seq: u32,
    chunk_seq: nat,
    assembler: AssemblerModel,
) -> ReassemblerModel {
    ReassemblerModel { msg_seq, chunk_seq: chunk_seq as u16, assembler }
}

/// The chunks of a message, pushed in order behind at least one that was
/// accepted before them, hand the message's bytes to the stream assembler.
pub proof fn lemma_chunks_in_order(
    state: ReassemblerModel,
    produced: nat,
    data: Seq<u8>,
    payload_size: nat,
)
    requires
        payload_size > 0,
        produced >= 1,
        state.chunk_seq == produced,
        produced + chunk_count(data.len(), payload_size) <= MAX_CHUNKS,
    ensures
        state.push_chunks(split_from(state.msg_seq, produced, data, payload_size))
            == inside_message(
            state.msg_seq,
            produced + chunk_count(data.len(), payload_size),
            state.assembler.feed(data),
        ),
    decreases data.len(),
{
    if data.len() > 0 {
        let taken = if payload_size < data.len() {
            payload_size as int
        } else {
            data.len() as int
        };
        let first = chunk_header(state.msg_seq, produced + 1) + data.take(taken);
        let rest = split_from(state.msg_seq, produced + 1, data.skip(taken), payload_size);
        let chunks = split_from(state.msg_seq, produced, data, payload_size);
        assert(chunks[0] == first);
        assert(chunks.skip(1) =~= rest);
        lemma_chunk_parses(state.msg_seq, produced + 1, data.take(taken));
        let next = state.push_chunk(first);
        assert(next == inside_message(
            state.msg_seq,
            produced + 1,
            state.assembler.feed(data.take(taken)),
        ));
        lemma_chunks_in_order(next, produced + 1, data.skip(taken), payload_size);
        lemma_feed_concat(state.assembler, data.take(taken), data.skip(taken));
        assert(data.take(taken) + data.skip(taken) =~= data);
    }
}

/// Chunks of message `msg_seq` that come later than the next one expected
/// are all dropped: no packet is completed by them.
pub proof fn lemma_later_chunks_dropped(
    state: ReassemblerModel,
    msg_seq: u32,
    produced: nat,
    data: Seq<u8>,
    payload_size: nat,
)
    requires
        payload_size > 0,
        produced >= 1,
        produced + chunk_count(data.len(), payload_size) <= MAX_CHUNKS,
        state.msg_seq < msg_seq || (state.msg_seq == msg_seq && state.chunk_seq < produced),
    ensures
        state.push_chunks(split_from(msg_seq, produced, data, payload_size)).assembler.packets
            == state.assembler.packets,
        state.push_chunks(split_from(msg_seq, produced, data, payload_size)).msg_seq <= msg_seq,
        state.msg_seq == msg_seq ==> state.push_chunks(
            split_from(msg_seq, produced, data, payload_size),
        ) == state,
    decreases data.len(),
{
    if data.len() > 0 {
        let taken = if payload_size < data.len() {
            payload_size as int
        } else {
            data.len() as int
        };
        let first = chunk_header(msg_seq, produced + 1) + data.take(taken);
        let rest = split_from(msg_seq, produced + 1, data.skip(taken), payload_size);
        let chunks = split_from(msg_seq, produced, data, payload_size);
        assert(chunks[0] == first);
        assert(chunks.skip(1) =~= rest);
        lemma_chunk_parses(msg_seq, produced + 1, data.take(taken));
        let next = state.push_chunk(first);
        lemma_later_chunks_dropped(next, msg_seq, produced + 1, data.skip(taken), payload_size);
    }
}

/// The chunks of a message, pushed in order behind at least one that was
/// accepted before them, but for one that was lost, hand the stream
/// assembler the message's bytes up to the lost chunk and nothing behind it.
/// The result is how many bytes that is.
pub proof fn lemma_chunks_with_gap(
    state: ReassemblerModel,
    produced: nat,
    data: Seq<u8>,
    payload_size: nat,
    lost: int,
) -> (fed: int)
    requires
        payload_size > 0,
        produced >= 1,
        state.chunk_seq == produced,
        produced + chunk_count(data.len(), payload_size) <= MAX_CHUNKS,
        0 <= lost < split_from(state.msg_seq, produced, data, payload_size).len(),
    ensures
        0 <= fed < data.len(),
        state.push_chunks(
            split_from(state.msg_seq, produced, data, payload_size).remove(lost),
        ).assembler == state.assembler.feed(data.take(fed)),
        state.push_chunks(
            split_from(state.msg_seq, produced, data, payload_size).remove(lost),
        ).msg_seq == state.msg_seq,
    decreases data.len(),
{
    let taken = if payload_size < data.len() {
        payload_size as int
    } else {
        data.len() as int
    };
    let first = chunk_header(state.msg_seq, produced + 1) + data.take(taken);
    let rest = split_from(state.msg_seq, produced + 1, data.skip(taken), payload_size);
    let chunks = split_from(state.msg_seq, produced, data, payload_size);
    assert(chunks =~= seq![first] + rest);
    if lost == 0 {
        assert(chunks.remove(0) =~= rest);
        lemma_later_chunks_dropped(
            state,
            state.msg_seq,
            produced + 1,
            data.skip(taken),
            payload_size,
        );
        assert(data.take(0) =~= Seq::<u8>::empty());
        0
    } else {
        let kept = chunks.remove(lost);
        assert(kept[0] == first);
        assert(kept.skip(1) =~= rest.remove(lost - 1));
        lemma_chunk_parses(state.msg_seq, produced + 1, data.take(taken));
        let next = state.push_chunk(first);
        assert(next == inside_message(
            state.msg_seq,
            produced + 1,
            state.assembler.feed(data.take(taken)),
        ));
        let more = lemma_chunks_with_gap(
            next,
            produced + 1,
            data.skip(taken),
            payload_size,
            lost - 1,
        );
        lemma_feed_concat(state.assembler, data.take(taken), data.skip(taken).take(more));
        assert(data.take(taken) + data.skip(taken).take(more) =~= data.take(taken + more));
        taken + more
    }
}

/// The first chunk of a message whose number the reassembler has not seen
/// gives up what was under way and starts the message.
pub proof fn lemma_first_chunk_starts_message(
    state: ReassemblerModel,
    msg_seq: u32,
    payload: Seq<u8>,
)
    requires
        state.msg_seq < msg_seq,
    ensures
        state.push_chunk(chunk_header(msg_seq, 1) + payload) == inside_message(
            msg_seq,
            1,
            state.assembler.reset().feed(payload),
        ),
{
    lemma_chunk_parses(msg_seq, 1, payload);
}

/// A chunk of the message number that the reassembler saw last is dropped
/// when no chunk of that message was accepted. So a new reassembler drops
/// every chunk of message number 0.
pub proof fn lemma_no_continuation_without_start(state: ReassemblerModel, chunk: Seq<u8>)
    requires
        state.chunk_seq == 0,
        chunk.len() < 6 || chunk_msg_seq(chunk) <= state.msg_seq,
    ensures
        state.push_chunk(chunk) == state,
        ReassemblerModel::empty().chunk_seq == 0,
        ReassemblerModel::empty().msg_seq == 0,
{
}

/// A length-prefixed packet that is split under a message number which the
/// reassembler has not seen, and whose chunks all arrive in order, comes
/// out whole: it stands behind the packets that were complete before, and
/// nothing is left under way.
pub proof fn lemma_split_then_reassemble(
    state: ReassemblerModel,
    msg_seq: u32,
    payload: Seq<u8>,
    payload_size: nat,
)
    requires
        state.msg_seq < msg_seq,
        payload_size > 0,
        payload.len() <= 65535,
        chunk_count(length_prefixed(payload).len(), payload_size) <= MAX_CHUNKS,
    ensures
        state.push_chunks(
            split_chunks(msg_seq, length_prefixed(payload), payload_size),
        ).assembler == (AssemblerModel {
            expected: ExpectedSize::Unknown,
            buffer: Seq::empty(),
            packets: state.assembler.packets.push(payload),
        }),
        state.push_chunks(
            split_chunks(msg_seq, length_prefixed(payload), payload_size),
        ).msg_seq == msg_seq,
{
    let frame = length_prefixed(payload);
    let chunks = split_chunks(msg_seq, frame, payload_size);
    lemma_be_bytes_len(payload.len(), 2);
    let taken = if payload_size < frame.len() {
        payload_size as int
    } else {
        frame.len() as int
    };
    let first = chunk_header(msg_seq, 1) + frame.take(taken);
    let rest = split_from(msg_seq, 1, frame.skip(taken), payload_size);
    assert(chunks[0] == first);
    assert(chunks.skip(1) =~= rest);
    lemma_first_chunk_starts_message(state, msg_seq, frame.take(taken));
    let started = state.push_chunk(first);
    lemma_chunks_in_order(started, 1, frame.skip(taken), payload_size);
    lemma_feed_concat(state.assembler.reset(), frame.take(taken), frame.skip(taken));
    assert(frame.take(taken) + frame.skip(taken) =~= frame);
    lemma_framed_packet_completes(state.assembler.reset(), payload);
}

/// When one chunk of such a message is lost on the way, whichever it is, no
/// packet comes out of the others: the complete packets are the ones from
/// before.
pub proof fn lemma_lost_chunk_discards_message(
    state: ReassemblerModel,
    msg_seq: u32,
    payload: Seq<u8>,
    payload_size: nat,
    lost: int,
)
    requires
        state.msg_seq < msg_seq,
        payload_size > 0,
        payload.len() <= 65535,
        chunk_count(length_prefixed(payload).len(), payload_size) <= MAX_CHUNKS,
        0 <= lost < split_chunks(msg_seq, length_prefixed(payload), payload_size).len(),
    ensures
        state.push_chunks(
            split_chunks(msg_seq, length_prefixed(payload), payload_size).remove(lost),
        ).assembler.packets == state.assembler.packets,
        state.push_chunks(
            split_chunks(msg_seq, length_prefixed(payload), payload_size).remove(lost),
        ).msg_seq <= msg_seq,
{
    let frame = length_prefixed(payload);
    let chunks = split_chunks(msg_seq, frame, payload_size);
    lemma_be_bytes_len(payload.len(), 2);
    let taken = if payload_size < frame.len() {
        payload_size as int
    } else {
        frame.len() as int
    };
    let first = chunk_header(msg_seq, 1) + frame.take(taken);
    let rest = split_from(msg_seq, 1, frame.skip(taken), payload_size);
    assert(chunks =~= seq![first] + rest);
    if lost == 0 {
        assert(chunks.remove(0) =~= rest);
        lemma_later_chunks_dropped(state, msg_seq, 1, frame.skip(taken), payload_size);
    } else {
        let kept = chunks.remove(lost);
        assert(kept[0] == first);
        assert(kept.skip(1) =~= rest.remove(lost - 1));
        lemma_first_chunk_starts_message(state, msg_seq, frame.take(taken));
        let started = state.push_chunk(first);
        let more = lemma_chunks_with_gap(
            started,
            1,
            frame.skip(taken),
            payload_size,
            lost - 1,
        );
        lemma_feed_concat(
            state.assembler.reset(),
            frame.take(taken),
            frame.skip(taken).take(more),
        );
        assert(frame.take(taken) + frame.skip(taken).take(more) =~= frame.take(taken + more));
        lemma_partial_frame_completes_nothing(state.assembler.reset(), payload, taken + more);
    }
}

/// A message that follows one with a lost chunk is not touched by the
/// loss: it comes out whole, behind the packets from before the loss.
pub proof fn lemma_message_after_loss_is_unaffected(
    state: ReassemblerModel,
    msg_seq: u32,
    payload: Seq<u8>,
    lost: int,
    next_seq: u32,
    next_payload: Seq<u8>,
    payload_size: nat,
)
    requires
        state.msg_seq < msg_seq < next_seq,
        payload_size > 0,
        payload.len() <= 65535,
        next_payload.len() <= 65535,
        chunk_count(length_prefixed(payload).len(), payload_size) <= MAX_CHUNKS,
        chunk_count(length_prefixed(next_payload).len(), payload_size) <= MAX_CHUNKS,
        0 <= lost < split_chunks(msg_seq, length_prefixed(payload), payload_size).len(),
    ensures
        state.push_chunks(
            split_chunks(msg_seq, length_prefixed(payload), payload_size).remove(lost),
        ).push_chunks(
            split_chunks(next_seq, length_prefixed(next_payload), payload_size),
        ).assembler.packets == state.assembler.packets.push(next_payload),
{
    lemma_lost_chunk_discards_message(state, msg_seq, payload, payload_size, lost);
    let after_loss = state.push_chunks(
        split_chunks(msg_seq, length_prefixed(payload), payload_size).remove(lost),
    );
    lemma_split_then_reassemble(after_loss, next_seq, next_payload, payload_size);
}

} // verus!
