use tick_channel::bits::{BitReader, BitWriter, SerdeErr, MTU_SIZE_BITS, MTU_SIZE_BYTES};
use tick_channel::message_list_header;
use tick_channel::standard_header::{PacketType, StandardHeader};
use tick_channel::varint::{read_varint, varint_len, write_varint};
use tick_channel::wire::Serde;

#[test]
fn bits_are_packed_most_significant_first() {
    let mut writer = BitWriter::new();
    writer.write_bit(true);
    writer.write_bit(false);
    writer.write_bit(true);
    assert_eq!(writer.bit_count(), 3);
    let (length, bytes) = writer.flush();
    assert_eq!(length, 1);
    assert_eq!(bytes, vec![0b1010_0000]);
}

#[test]
fn numbers_are_written_big_endian() {
    let mut writer = BitWriter::new();
    0x1234u16.ser(&mut writer);
    0xA1B2C3D4u32.ser(&mut writer);
    0x0102030405060708u64.ser(&mut writer);
    let (length, bytes) = writer.flush();
    assert_eq!(length, 14);
    assert_eq!(
        bytes,
        vec![0x12, 0x34, 0xA1, 0xB2, 0xC3, 0xD4, 1, 2, 3, 4, 5, 6, 7, 8]
    );
}

#[test]
fn a_field_may_straddle_bytes() {
    let mut writer = BitWriter::new();
    writer.write_bits(0b101, 3);
    0xFFu8.ser(&mut writer);
    let (length, bytes) = writer.flush();
    assert_eq!(length, 2);
    assert_eq!(bytes, vec![0b1011_1111, 0b1110_0000]);

    let mut reader = BitReader::new(length, bytes);
    assert_eq!(reader.read_bits(3), Ok(0b101));
    assert_eq!(reader.read::<u8>(), Ok(0xFF));
    // the padding of the last byte
    assert_eq!(reader.read_bits(5), Ok(0));
    assert_eq!(reader.read_bit(), Err(SerdeErr));
}

#[test]
fn signed_numbers_round_trip() {
    let values: [i32; 5] = [0, 1, -1, i32::MAX, i32::MIN];
    let mut writer = BitWriter::new();
    for value in values.iter() {
        value.ser(&mut writer);
    }
    let (length, bytes) = writer.flush();
    assert_eq!(&bytes[4..12], &[0, 0, 0, 1, 0xFF, 0xFF, 0xFF, 0xFF]);
    let mut reader = BitReader::new(length, bytes);
    for value in values.iter() {
        assert_eq!(reader.read::<i32>(), Ok(*value));
    }
}

#[test]
fn a_read_past_the_end_fails_and_reads_nothing() {
    let mut reader = BitReader::new(1, vec![0xAB]);
    assert!(reader.has_bits(8));
    assert!(!reader.has_bits(9));
    assert_eq!(reader.read::<u16>(), Err(SerdeErr));
    assert_eq!(reader.read::<u8>(), Ok(0xAB));
    assert_eq!(reader.read::<bool>(), Err(SerdeErr));
}

#[test]
fn a_reader_covers_no_more_than_the_given_length() {
    let mut reader = BitReader::new(1, vec![1, 2, 3]);
    assert_eq!(reader.read::<u8>(), Ok(1));
    assert_eq!(reader.read::<u8>(), Err(SerdeErr));
    let mut reader = BitReader::new(10, vec![1, 2]);
    assert!(reader.has_bytes(2));
    assert!(!reader.has_bytes(3));
    assert_eq!(reader.read::<u16>(), Ok(0x0102));
}

#[test]
fn the_writer_holds_one_packet() {
    let mut writer = BitWriter::new();
    assert_eq!(MTU_SIZE_BITS, MTU_SIZE_BYTES * 8);
    assert_eq!(writer.bits_free(), MTU_SIZE_BITS);
    writer.reserve_bits(10);
    assert_eq!(writer.bits_free(), MTU_SIZE_BITS - 10);
    writer.write_bits(3, 2);
    assert_eq!(writer.bits_free(), MTU_SIZE_BITS - 12);
    writer.release_bits(10);
    assert_eq!(writer.bits_free(), MTU_SIZE_BITS - 2);
    while writer.bits_free() > 0 {
        writer.write_bit(true);
    }
    assert_eq!(writer.bit_count(), MTU_SIZE_BITS);
    let (length, bytes) = writer.flush();
    assert_eq!(length, MTU_SIZE_BYTES);
    assert_eq!(bytes.len(), MTU_SIZE_BYTES);
    assert_eq!(writer.bit_count(), 0);
}

#[test]
fn varint_bits_are_exact() {
    let cases: [(u64, usize, Vec<u8>); 5] = [
        (0, 4, vec![0b0000_0000]),
        (7, 4, vec![0b0111_0000]),
        (8, 8, vec![0b1000_0001]),
        (123, 12, vec![0b1011_1111, 0b0001_0000]),
        (65535, 24, vec![0b1111_1111, 0b1111_1111, 0b1111_0001]),
    ];
    for (value, bits, expected) in cases.iter() {
        let mut writer = BitWriter::new();
        assert_eq!(varint_len(*value), *bits);
        write_varint(&mut writer, *value);
        assert_eq!(writer.bit_count(), *bits);
        let (_, bytes) = writer.flush();
        assert_eq!(&bytes, expected);
    }
}

#[test]
fn varint_round_trips() {
    let values: [u64; 8] = [0, 1, 7, 8, 63, 64, 1 << 40, u64::MAX];
    let mut writer = BitWriter::new();
    for value in values.iter() {
        write_varint(&mut writer, *value);
    }
    assert_eq!(varint_len(u64::MAX), 88);
    let (length, bytes) = writer.flush();
    let mut reader = BitReader::new(length, bytes);
    for value in values.iter() {
        assert_eq!(read_varint(&mut reader), Ok(*value));
    }
}

#[test]
fn varint_rejects_what_does_not_fit() {
    // twenty-two groups whose last digit is two: two to the sixty-fourth
    let mut writer = BitWriter::new();
    for _ in 0..21 {
        writer.write_bits(0b1000, 4);
    }
    writer.write_bits(0b0010, 4);
    let (length, bytes) = writer.flush();
    let mut reader = BitReader::new(length, bytes);
    assert_eq!(read_varint(&mut reader), Err(SerdeErr));

    // twenty-three groups
    let mut writer = BitWriter::new();
    for _ in 0..22 {
        writer.write_bits(0b1000, 4);
    }
    writer.write_bits(0b0000, 4);
    let (length, bytes) = writer.flush();
    let mut reader = BitReader::new(length, bytes);
    assert_eq!(read_varint(&mut reader), Err(SerdeErr));

    // more groups are promised than there are
    let mut reader = BitReader::new(1, vec![0b1000_1000]);
    assert_eq!(read_varint(&mut reader), Err(SerdeErr));
}

#[test]
fn an_empty_list_takes_one_bit() {
    let mut writer = BitWriter::new();
    message_list_header::write(&mut writer, 0);
    assert_eq!(writer.bit_count(), 1);
    assert_eq!(message_list_header::bit_len(0), 1);
    let (length, bytes) = writer.flush();
    assert_eq!(bytes, vec![0]);
    let mut reader = BitReader::new(length, bytes);
    assert_eq!(message_list_header::read(&mut reader), Ok(0));
}

#[test]
fn a_list_count_is_flag_and_varint() {
    let mut writer = BitWriter::new();
    message_list_header::write(&mut writer, 123);
    assert_eq!(writer.bit_count(), 13);
    assert_eq!(message_list_header::bit_len(123), 13);
    assert_eq!(message_list_header::bit_len(1), 5);
    let (length, bytes) = writer.flush();
    assert_eq!(bytes, vec![0b1101_1111, 0b1000_1000]);
    let mut reader = BitReader::new(length, bytes);
    assert_eq!(message_list_header::read(&mut reader), Ok(123));

    // a count past sixteen bits is refused
    let mut writer = BitWriter::new();
    writer.write_bit(true);
    write_varint(&mut writer, 65536);
    let (length, bytes) = writer.flush();
    let mut reader = BitReader::new(length, bytes);
    assert_eq!(message_list_header::read(&mut reader), Err(SerdeErr));
    let mut reader = BitReader::new(0, vec![]);
    assert_eq!(message_list_header::read(&mut reader), Err(SerdeErr));
}

#[test]
fn header_bytes_are_exact() {
    let header = StandardHeader::new(PacketType::Data, 0x1234, 0xABCD, 0x00FF, 7);
    let mut writer = BitWriter::new();
    header.ser(&mut writer);
    assert_eq!(writer.bit_count(), 64);
    let (length, bytes) = writer.flush();
    assert_eq!(bytes, vec![4, 0x12, 0x34, 0xAB, 0xCD, 0x00, 0xFF, 7]);
    let mut reader = BitReader::new(length, bytes);
    assert_eq!(StandardHeader::de(&mut reader), Ok(header));
}

#[test]
fn every_packet_type_round_trips() {
    let types = [
        PacketType::ClientChallengeRequest,
        PacketType::ServerChallengeResponse,
        PacketType::ClientConnectRequest,
        PacketType::ServerConnectResponse,
        PacketType::Data,
        PacketType::Heartbeat,
        PacketType::Ping,
        PacketType::Pong,
        PacketType::Disconnect,
    ];
    for (code, packet_type) in types.iter().enumerate() {
        assert_eq!(packet_type.to_code() as usize, code);
        assert_eq!(PacketType::from_code(code as u8), Some(*packet_type));
        let header = StandardHeader::new(*packet_type, 65535, 0, 0x8001, 255);
        let mut writer = BitWriter::new();
        header.ser(&mut writer);
        let (length, bytes) = writer.flush();
        let mut reader = BitReader::new(length, bytes);
        let read = StandardHeader::de(&mut reader).unwrap();
        assert_eq!(read, header);
        assert_eq!(read.packet_type(), *packet_type);
    }
    assert_eq!(PacketType::from_code(9), None);
}

#[test]
fn a_header_of_no_known_type_is_refused() {
    let mut reader = BitReader::new(8, vec![9, 0, 0, 0, 0, 0, 0, 0]);
    assert_eq!(StandardHeader::de(&mut reader), Err(SerdeErr));
    let mut reader = BitReader::new(7, vec![4, 0, 0, 0, 0, 0, 0]);
    assert_eq!(StandardHeader::de(&mut reader), Err(SerdeErr));
}
