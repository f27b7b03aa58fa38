use tactile_tesla::binary_packets::{PacketReader, PacketWriteError, PacketWriter};

#[test]
fn writes_unsigned_integers_big_endian() {
    let mut writer = PacketWriter::new();
    writer.write_u8(0xAB);
    writer.write_u16(0x0102);
    writer.write_u32(0x0304_0506);
    writer.write_u64(0x0708_090A_0B0C_0D0E);
    writer.write_u128(0x1011_1213_1415_1617_1819_1A1B_1C1D_1E1F);
    let mut expected = vec![0xAB, 1, 2, 3, 4, 5, 6, 7, 8, 9, 10, 11, 12, 13, 14];
    expected.extend(0x10u8..=0x1F);
    assert_eq!(writer.finish(), expected);
}

#[test]
fn writes_signed_integers_as_twos_complement() {
    let mut writer = PacketWriter::new();
    writer.write_i8(-1);
    writer.write_i8(i8::MIN);
    writer.write_i16(-2);
    writer.write_i32(-3);
    writer.write_i64(i64::MIN);
    writer.write_i128(-1);
    let mut expected = vec![0xFF, 0x80, 0xFF, 0xFE, 0xFF, 0xFF, 0xFF, 0xFD];
    expected.extend([0x80, 0, 0, 0, 0, 0, 0, 0]);
    expected.extend([0xFF; 16]);
    assert_eq!(writer.finish(), expected);
}

#[test]
fn written_integers_match_std_encoding() {
    let mut writer = PacketWriter::new();
    writer.write_u16(0xBEEF);
    writer.write_u32(0xDEAD_BEEF);
    writer.write_u64(u64::MAX - 5);
    writer.write_u128(u128::MAX / 3);
    writer.write_i16(i16::MIN);
    writer.write_i32(i32::MIN + 7);
    writer.write_i64(-1234567890123);
    writer.write_i128(i128::MIN + 99);
    let mut expected = Vec::new();
    expected.extend(0xBEEFu16.to_be_bytes());
    expected.extend(0xDEAD_BEEFu32.to_be_bytes());
    expected.extend((u64::MAX - 5).to_be_bytes());
    expected.extend((u128::MAX / 3).to_be_bytes());
    expected.extend(i16::MIN.to_be_bytes());
    expected.extend((i32::MIN + 7).to_be_bytes());
    expected.extend((-1234567890123i64).to_be_bytes());
    expected.extend((i128::MIN + 99).to_be_bytes());
    assert_eq!(writer.finish(), expected);
}

#[test]
fn reads_back_every_integer_width() {
    let mut writer = PacketWriter::new();
    writer.write_u8(200);
    writer.write_i8(-100);
    writer.write_u16(54321);
    writer.write_i16(-12345);
    writer.write_u32(4_000_000_000);
    writer.write_i32(-2_000_000_000);
    writer.write_u64(u64::MAX);
    writer.write_i64(i64::MIN);
    writer.write_u128(u128::MAX - 1);
    writer.write_i128(i128::MIN + 1);
    let bytes = writer.finish();
    assert_eq!(bytes.len(), 1 + 1 + 2 + 2 + 4 + 4 + 8 + 8 + 16 + 16);
    let mut reader = PacketReader::new(&bytes);
    assert_eq!(reader.read_u8(), Some(200));
    assert_eq!(reader.read_i8(), Some(-100));
    assert_eq!(reader.read_u16(), Some(54321));
    assert_eq!(reader.read_i16(), Some(-12345));
    assert_eq!(reader.read_u32(), Some(4_000_000_000));
    assert_eq!(reader.read_i32(), Some(-2_000_000_000));
    assert_eq!(reader.read_u64(), Some(u64::MAX));
    assert_eq!(reader.read_i64(), Some(i64::MIN));
    assert_eq!(reader.read_u128(), Some(u128::MAX - 1));
    assert_eq!(reader.read_i128(), Some(i128::MIN + 1));
    assert_eq!(reader.read_u8(), None);
    assert!(reader.get_remainder().is_empty());
}

#[test]
fn reads_known_bytes() {
    let bytes = [0x12, 0x34, 0x56, 0x78, 0x9A, 0xBC, 0xDE, 0xF0];
    let mut reader = PacketReader::new(&bytes);
    assert_eq!(reader.read_u16(), Some(0x1234));
    assert_eq!(reader.read_u32(), Some(0x5678_9ABC));
    assert_eq!(reader.read_i16(), Some(0xDEF0u16 as i16));
    let mut whole = PacketReader::new(&bytes);
    assert_eq!(whole.read_u64(), Some(0x1234_5678_9ABC_DEF0));
}

#[test]
fn oversized_byte_string_is_too_large() {
    let mut writer = PacketWriter::new();
    writer.write_u8(7);
    let bytes = vec![0u8; 70000];
    assert_eq!(writer.write_bytes(&bytes), Err(PacketWriteError::TooLarge));
    assert_eq!(writer.finish(), vec![7]);
}

#[test]
fn byte_string_at_the_limit_is_written() {
    let mut writer = PacketWriter::new();
    let bytes = vec![0x5Au8; 65535];
    assert_eq!(writer.write_bytes(&bytes), Ok(()));
    let packet = writer.finish();
    assert_eq!(packet.len(), 65537);
    assert_eq!(&packet[..2], &[0xFF, 0xFF]);
    let mut over = PacketWriter::new();
    assert_eq!(over.write_bytes(&vec![0u8; 65536]), Err(PacketWriteError::TooLarge));
}

#[test]
fn read_past_end_is_absent() {
    let buffer = [0u8; 10];
    let mut reader = PacketReader::new(&buffer);
    for _ in 0..9 {
        assert_eq!(reader.read_u8(), Some(0));
    }
    assert_eq!(reader.read_u32(), None);
    assert_eq!(reader.read_u16(), None);
    assert_eq!(reader.read_u64(), None);
    assert_eq!(reader.read_u128(), None);
    assert_eq!(reader.get_remainder(), &[0u8][..]);
}

#[test]
fn failed_read_leaves_the_cursor() {
    let buffer = [1u8, 2, 3];
    let mut reader = PacketReader::new(&buffer);
    assert_eq!(reader.read_u32(), None);
    assert_eq!(reader.read_u16(), Some(0x0102));
    assert_eq!(reader.read_i16(), None);
    assert_eq!(reader.read_i8(), Some(3));
    assert_eq!(reader.read_i8(), None);
}

#[test]
fn byte_strings_round_trip_with_their_length() {
    let mut writer = PacketWriter::new();
    assert_eq!(writer.write_bytes(&[9, 8, 7]), Ok(()));
    assert_eq!(writer.write_bytes(&[]), Ok(()));
    writer.write_u8(0x42);
    let packet = writer.finish();
    assert_eq!(packet, vec![0, 3, 9, 8, 7, 0, 0, 0x42]);
    let mut reader = PacketReader::new(&packet);
    assert_eq!(reader.read_bytes(), Some(&[9u8, 8, 7][..]));
    assert_eq!(reader.read_bytes(), Some(&[][..]));
    assert_eq!(reader.get_remainder(), &[0x42u8][..]);
}

#[test]
fn byte_string_shorter_than_announced_is_absent() {
    let packet = [0u8, 4, 1, 2, 3];
    let mut reader = PacketReader::new(&packet);
    assert_eq!(reader.read_bytes(), None);
    // the length stays consumed
    assert_eq!(reader.get_remainder(), &[1u8, 2, 3][..]);
    let short = [0u8];
    let mut reader = PacketReader::new(&short);
    assert_eq!(reader.read_bytes(), None);
    assert_eq!(reader.get_remainder(), &[0u8][..]);
}

#[test]
fn text_round_trips_as_utf8() {
    let mut writer = PacketWriter::new();
    assert_eq!(writer.write_str("Grüße, 世界"), Ok(()));
    let packet = writer.finish();
    let text = "Grüße, 世界".as_bytes();
    assert_eq!(packet[..2], (text.len() as u16).to_be_bytes());
    assert_eq!(&packet[2..], text);
    let mut reader = PacketReader::new(&packet);
    assert_eq!(reader.read_str(), Some(Ok("Grüße, 世界")));
    assert!(reader.get_remainder().is_empty());
}

#[test]
fn invalid_utf8_is_a_decode_failure() {
    let packet = [0u8, 2, 0xC3, 0x28, 0xAA];
    let mut reader = PacketReader::new(&packet);
    let text = reader.read_str();
    assert!(matches!(text, Some(Err(_))));
    // the field is consumed all the same
    assert_eq!(reader.get_remainder(), &[0xAAu8][..]);
}

#[test]
fn missing_text_is_absent() {
    let packet = [0u8, 9, b'a'];
    let mut reader = PacketReader::new(&packet);
    assert!(reader.read_str().is_none());
}

#[test]
fn oversized_text_is_too_large() {
    let text = "x".repeat(65536);
    let mut writer = PacketWriter::new();
    assert_eq!(writer.write_str(&text), Err(PacketWriteError::TooLarge));
    assert!(writer.finish().is_empty());
}

#[test]
fn remainder_of_a_fresh_reader_is_the_buffer() {
    let buffer = [5u8, 6, 7];
    let reader = PacketReader::new(&buffer);
    assert_eq!(reader.get_remainder(), &buffer[..]);
    let empty: [u8; 0] = [];
    let mut reader = PacketReader::new(&empty);
    assert_eq!(reader.read_u8(), None);
}
