use tactile_tesla::packetizer::{
    PacketAssembler, TolerantPacketDisassembler, TolerantPacketReassembler,
    TOLERANT_PACKET_OVERHEAD,
};

fn framed(payload: &[u8]) -> Vec<u8> {
    let mut frame = (payload.len() as u16).to_be_bytes().to_vec();
    frame.extend_from_slice(payload);
    frame
}

fn chunks_of_next_message(
    disassembler: &mut TolerantPacketDisassembler<16>,
    packet: &[u8],
) -> Vec<Vec<u8>> {
    let mut iter = disassembler.split_packet(packet);
    let mut buffer = [0u8; 16];
    let mut chunks = Vec::new();
    while let Some(written) = iter.get_chunk(&mut buffer) {
        chunks.push(buffer[..written].to_vec());
    }
    chunks
}

fn drain(reassembler: &mut TolerantPacketReassembler) -> Vec<Vec<u8>> {
    let mut packets = Vec::new();
    while let Some(packet) = reassembler.next() {
        packets.push(packet);
    }
    packets
}

#[test]
fn header_is_six_bytes() {
    assert_eq!(TOLERANT_PACKET_OVERHEAD, 6);
}

#[test]
fn chunks_carry_header_and_payload() {
    let mut disassembler = TolerantPacketDisassembler::<16>::new();
    let packet: Vec<u8> = (1..=25).collect();
    let chunks = chunks_of_next_message(&mut disassembler, &packet);
    assert_eq!(chunks.len(), 3);
    assert_eq!(chunks[0], [&[0u8, 0, 0, 1, 0, 1][..], &packet[..10]].concat());
    assert_eq!(chunks[1], [&[0u8, 0, 0, 1, 0, 2][..], &packet[10..20]].concat());
    assert_eq!(chunks[2], [&[0u8, 0, 0, 1, 0, 3][..], &packet[20..]].concat());
}

#[test]
fn get_chunk_leaves_the_rest_of_the_buffer() {
    let mut disassembler = TolerantPacketDisassembler::<16>::new();
    let packet = [0xAAu8, 0xBB];
    let mut iter = disassembler.split_packet(&packet);
    let mut buffer = [0x77u8; 16];
    assert_eq!(iter.get_chunk(&mut buffer), Some(8));
    assert_eq!(&buffer[..8], &[0, 0, 0, 1, 0, 1, 0xAA, 0xBB]);
    assert_eq!(&buffer[8..], &[0x77u8; 8]);
    assert_eq!(iter.get_chunk(&mut buffer), None);
    assert_eq!(&buffer[..8], &[0, 0, 0, 1, 0, 1, 0xAA, 0xBB]);
    assert_eq!(iter.get_chunk(&mut buffer), None);
}

#[test]
fn message_sequence_grows_by_one_per_packet() {
    let mut disassembler = TolerantPacketDisassembler::<16>::new();
    let first = chunks_of_next_message(&mut disassembler, &[1]);
    let second = chunks_of_next_message(&mut disassembler, &[2]);
    let third = chunks_of_next_message(&mut disassembler, &[3]);
    assert_eq!(first, vec![vec![0, 0, 0, 1, 0, 1, 1]]);
    assert_eq!(second, vec![vec![0, 0, 0, 2, 0, 1, 2]]);
    assert_eq!(third, vec![vec![0, 0, 0, 3, 0, 1, 3]]);
}

#[test]
fn empty_packet_has_no_chunks() {
    let mut disassembler = TolerantPacketDisassembler::<16>::new();
    assert!(chunks_of_next_message(&mut disassembler, &[]).is_empty());
    // the message number is spent all the same
    let next = chunks_of_next_message(&mut disassembler, &[9]);
    assert_eq!(next, vec![vec![0, 0, 0, 2, 0, 1, 9]]);
}

#[test]
fn packet_of_exactly_one_payload_is_one_chunk() {
    let mut disassembler = TolerantPacketDisassembler::<16>::new();
    let packet = [3u8; 10];
    let chunks = chunks_of_next_message(&mut disassembler, &packet);
    assert_eq!(chunks.len(), 1);
    assert_eq!(chunks[0].len(), 16);
}

#[test]
fn smallest_chunk_size_carries_one_byte() {
    let mut disassembler = TolerantPacketDisassembler::<7>::new();
    let packet = [1u8, 2, 3];
    let mut iter = disassembler.split_packet(&packet);
    let mut buffer = [0u8; 7];
    assert_eq!(iter.get_chunk(&mut buffer), Some(7));
    assert_eq!(buffer, [0, 0, 0, 1, 0, 1, 1]);
    assert_eq!(iter.get_chunk(&mut buffer), Some(7));
    assert_eq!(buffer, [0, 0, 0, 1, 0, 2, 2]);
    assert_eq!(iter.get_chunk(&mut buffer), Some(7));
    assert_eq!(buffer, [0, 0, 0, 1, 0, 3, 3]);
    assert_eq!(iter.get_chunk(&mut buffer), None);
}

#[test]
fn assembler_completes_a_framed_packet() {
    let mut assembler = PacketAssembler::new();
    assert_eq!(assembler.next(), None);
    assembler.push_data(&framed(b"hello"));
    assert_eq!(assembler.next(), Some(b"hello".to_vec()));
    assert_eq!(assembler.next(), None);
}

#[test]
fn byte_at_a_time_gives_the_same_packet() {
    let frame = framed(b"one byte at a time");
    let mut whole = PacketAssembler::new();
    whole.push_data(&frame);
    let mut bytewise = PacketAssembler::new();
    for byte in &frame {
        bytewise.push_data(&[*byte]);
    }
    let expected = Some(b"one byte at a time".to_vec());
    assert_eq!(whole.next(), expected);
    assert_eq!(bytewise.next(), expected);
    assert_eq!(whole.next(), None);
    assert_eq!(bytewise.next(), None);
}

#[test]
fn every_cut_of_a_stream_gives_the_same_packets() {
    let mut stream = framed(b"first");
    stream.extend(framed(b""));
    stream.extend(framed(b"third packet"));
    for cut in 0..=stream.len() {
        let mut assembler = PacketAssembler::new();
        assembler.push_data(&stream[..cut]);
        assembler.push_data(&stream[cut..]);
        assert_eq!(assembler.next(), Some(b"first".to_vec()));
        assert_eq!(assembler.next(), Some(Vec::new()));
        assert_eq!(assembler.next(), Some(b"third packet".to_vec()));
        assert_eq!(assembler.next(), None);
    }
}

#[test]
fn packets_come_out_first_in_first_out() {
    let mut assembler = PacketAssembler::new();
    let mut stream = framed(&[1]);
    stream.extend(framed(&[2, 2]));
    stream.extend(framed(&[3, 3, 3]));
    assembler.push_data(&stream);
    assert_eq!(assembler.next(), Some(vec![1]));
    assembler.push_data(&framed(&[4]));
    assert_eq!(assembler.next(), Some(vec![2, 2]));
    assert_eq!(assembler.next(), Some(vec![3, 3, 3]));
    assert_eq!(assembler.next(), Some(vec![4]));
    assert_eq!(assembler.next(), None);
}

#[test]
fn incomplete_packet_stays_pending() {
    let mut assembler = PacketAssembler::new();
    assembler.push_data(&[0]);
    assert_eq!(assembler.next(), None);
    assembler.push_data(&[3, 7]);
    assert_eq!(assembler.next(), None);
    assembler.push_data(&[8]);
    assert_eq!(assembler.next(), None);
    assembler.push_data(&[9, 0, 1, 5]);
    assert_eq!(assembler.next(), Some(vec![7, 8, 9]));
    assert_eq!(assembler.next(), Some(vec![5]));
    assembler.push_data(&[]);
    assert_eq!(assembler.next(), None);
}

#[test]
fn length_prefix_is_big_endian() {
    let payload = vec![0xEEu8; 300];
    let mut assembler = PacketAssembler::new();
    assembler.push_data(&[0x01, 0x2C]);
    assembler.push_data(&payload);
    assert_eq!(assembler.next(), Some(payload));
}

#[test]
fn split_then_reassemble_gives_the_packet() {
    let payload: Vec<u8> = (0..100).collect();
    let mut disassembler = TolerantPacketDisassembler::<16>::new();
    let chunks = chunks_of_next_message(&mut disassembler, &framed(&payload));
    assert_eq!(chunks.len(), 11);
    let mut reassembler = TolerantPacketReassembler::new();
    for chunk in &chunks {
        reassembler.push_data(chunk);
    }
    assert_eq!(drain(&mut reassembler), vec![payload]);
}

#[test]
fn any_lost_chunk_discards_the_message() {
    let payload: Vec<u8> = (0..45).collect();
    let other = b"the message after".to_vec();
    let mut probe = TolerantPacketDisassembler::<16>::new();
    let count = chunks_of_next_message(&mut probe, &framed(&payload)).len();
    assert_eq!(count, 5);
    for lost in 0..count {
        let mut disassembler = TolerantPacketDisassembler::<16>::new();
        let chunks = chunks_of_next_message(&mut disassembler, &framed(&payload));
        let later = chunks_of_next_message(&mut disassembler, &framed(&other));
        let mut reassembler = TolerantPacketReassembler::new();
        for (i, chunk) in chunks.iter().enumerate() {
            if i != lost {
                reassembler.push_data(chunk);
            }
        }
        assert_eq!(reassembler.next(), None);
        for chunk in &later {
            reassembler.push_data(chunk);
        }
        assert_eq!(drain(&mut reassembler), vec![other.clone()]);
    }
}

#[test]
fn repeated_and_old_chunks_are_dropped() {
    let mut disassembler = TolerantPacketDisassembler::<16>::new();
    let first = chunks_of_next_message(&mut disassembler, &framed(&[1; 15]));
    let second = chunks_of_next_message(&mut disassembler, &framed(&[2; 15]));
    assert_eq!(first.len(), 2);
    let mut reassembler = TolerantPacketReassembler::new();
    reassembler.push_data(&first[0]);
    reassembler.push_data(&first[0]);
    reassembler.push_data(&first[1]);
    reassembler.push_data(&first[1]);
    assert_eq!(drain(&mut reassembler), vec![vec![1; 15]]);
    reassembler.push_data(&second[0]);
    // a chunk of the message before: dropped, and the one under way is kept
    reassembler.push_data(&first[1]);
    reassembler.push_data(&second[1]);
    assert_eq!(drain(&mut reassembler), vec![vec![2; 15]]);
    // the same message again: nothing comes out twice
    reassembler.push_data(&second[0]);
    reassembler.push_data(&second[1]);
    assert_eq!(reassembler.next(), None);
}

#[test]
fn out_of_order_chunks_are_dropped() {
    let mut disassembler = TolerantPacketDisassembler::<16>::new();
    let chunks = chunks_of_next_message(&mut disassembler, &framed(&[7; 25]));
    assert_eq!(chunks.len(), 3);
    let mut reassembler = TolerantPacketReassembler::new();
    reassembler.push_data(&chunks[0]);
    reassembler.push_data(&chunks[2]);
    reassembler.push_data(&chunks[1]);
    // chunk 3 was dropped when it came early, so the message never completes
    assert_eq!(reassembler.next(), None);
    reassembler.push_data(&chunks[2]);
    assert_eq!(drain(&mut reassembler), vec![vec![7; 25]]);
}

#[test]
fn new_message_discards_the_partial_one() {
    let mut disassembler = TolerantPacketDisassembler::<16>::new();
    let first = chunks_of_next_message(&mut disassembler, &framed(&[1; 30]));
    let second = chunks_of_next_message(&mut disassembler, &framed(&[2; 4]));
    let mut reassembler = TolerantPacketReassembler::new();
    reassembler.push_data(&first[0]);
    reassembler.push_data(&first[1]);
    for chunk in &second {
        reassembler.push_data(chunk);
    }
    assert_eq!(drain(&mut reassembler), vec![vec![2; 4]]);
    reassembler.push_data(&first[2]);
    reassembler.push_data(&first[3]);
    assert_eq!(reassembler.next(), None);
}

#[test]
fn chunk_without_a_whole_header_is_ignored() {
    let mut reassembler = TolerantPacketReassembler::new();
    reassembler.push_data(&[]);
    reassembler.push_data(&[0, 0, 0, 9]);
    reassembler.push_data(&[0, 0, 0, 9, 0]);
    // message 1 is still new to the reassembler
    reassembler.push_data(&[0, 0, 0, 1, 0, 1, 0, 1, 0x55]);
    assert_eq!(drain(&mut reassembler), vec![vec![0x55]]);
}

#[test]
fn chunk_of_header_only_is_accepted() {
    let mut reassembler = TolerantPacketReassembler::new();
    reassembler.push_data(&[0, 0, 0, 1, 0, 1]);
    reassembler.push_data(&[0, 0, 0, 1, 0, 2, 0, 1, 0x66]);
    assert_eq!(drain(&mut reassembler), vec![vec![0x66]]);
}

#[test]
fn message_whose_first_chunk_was_lost_is_dropped_for_good() {
    let mut reassembler = TolerantPacketReassembler::new();
    // message 5 arrives from its second chunk on: dropped
    reassembler.push_data(&[0, 0, 0, 5, 0, 2, 0, 1, 0x11]);
    assert_eq!(reassembler.next(), None);
    // message 4 is now old
    reassembler.push_data(&[0, 0, 0, 4, 0, 1, 0, 1, 0x22]);
    assert_eq!(reassembler.next(), None);
    // the first chunk of message 5 comes late: no chunk of the message was
    // accepted, so this one is no continuation
    reassembler.push_data(&[0, 0, 0, 5, 0, 1, 0, 1, 0x33]);
    assert_eq!(reassembler.next(), None);
    reassembler.push_data(&[0, 0, 0, 5, 0, 2, 0, 1, 0x44]);
    assert_eq!(reassembler.next(), None);
    // message 6 is new
    reassembler.push_data(&[0, 0, 0, 6, 0, 1, 0, 1, 0x55]);
    assert_eq!(drain(&mut reassembler), vec![vec![0x55]]);
}

#[test]
fn new_reassembler_drops_message_number_zero() {
    let mut reassembler = TolerantPacketReassembler::new();
    assert_eq!(reassembler.next(), None);
    reassembler.push_data(&[0, 0, 0, 0, 0, 1, 0, 1, 0xAA]);
    assert_eq!(reassembler.next(), None);
    reassembler.push_data(&[0, 0, 0, 0, 0, 2, 0, 1, 0xBB]);
    assert_eq!(reassembler.next(), None);
    // the first message that a disassembler numbers is message 1
    reassembler.push_data(&[0, 0, 0, 1, 0, 1, 0, 1, 0xCC]);
    assert_eq!(drain(&mut reassembler), vec![vec![0xCC]]);
    // and message 0 stays old
    reassembler.push_data(&[0, 0, 0, 0, 0, 1, 0, 1, 0xDD]);
    assert_eq!(reassembler.next(), None);
}

#[test]
fn finished_message_takes_its_next_chunk_only() {
    let mut reassembler = TolerantPacketReassembler::new();
    reassembler.push_data(&[0, 0, 0, 3, 0, 1, 0, 1, 0x01]);
    assert_eq!(drain(&mut reassembler), vec![vec![0x01]]);
    // the first chunk again: dropped
    reassembler.push_data(&[0, 0, 0, 3, 0, 1, 0, 1, 0x02]);
    assert_eq!(reassembler.next(), None);
    // the chunk behind the last accepted one continues the stream
    reassembler.push_data(&[0, 0, 0, 3, 0, 2, 0, 1, 0x03]);
    assert_eq!(drain(&mut reassembler), vec![vec![0x03]]);
}
