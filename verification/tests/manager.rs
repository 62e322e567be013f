use tick_channel::bits::{BitReader, BitWriter, SerdeErr};
use tick_channel::channel_tick_buffer::TickBufferSettings;
use tick_channel::message::Message;
use tick_channel::message_manager::{read_sections, MessageManager, MAX_CHANNELS};

fn manager(channels: usize) -> MessageManager {
    MessageManager::new(&vec![TickBufferSettings { resend_interval: 100 }; channels], 0)
}

fn message(byte: u8) -> Message {
    Message::new(3, vec![byte])
}

fn packet(sender: &mut MessageManager, packet_index: u16, tick: u16) -> (Vec<u8>, bool) {
    let mut writer = BitWriter::new();
    let has_written = sender.write_messages(&mut writer, packet_index, &tick);
    (writer.flush().1, has_written)
}

#[test]
fn a_manager_without_messages_writes_the_end_alone() {
    let mut sender = manager(2);
    assert_eq!(sender.channel_count(), 2);
    let mut writer = BitWriter::new();
    assert!(!sender.write_messages(&mut writer, 0, &5));
    assert_eq!(writer.bit_count(), 1);
    assert_eq!(writer.flush().1, vec![0]);
}

#[test]
fn part_bytes_are_exact() {
    let mut sender = manager(2);
    sender.send_message(1, &9, &Message::new(0x0102, vec![0xFF]));
    sender.collect_outgoing_messages(0, &9, &0);
    let (bytes, has_written) = packet(&mut sender, 0, 9);
    assert!(has_written);
    assert_eq!(
        bytes,
        vec![
            // a channel follows (1), and seven bits of its number 1
            0b1000_0000,
            // the number's last bit; one group (1 0001); the distance 0 (0000) begins
            0b1100_0100,
            0b0000_0100,
            0b0000_0000,
            0b0000_0100,
            0b0000_1000,
            0b0111_1111,
            // the payload ends; the bit that ends the messages; padding
            0b1100_0000,
        ]
    );
    let mut reader = BitReader::new(bytes.len(), bytes);
    let sections = read_sections(&mut reader, &9, 2).unwrap();
    assert_eq!(
        sections,
        vec![(1, vec![(9, vec![(0, Message::new(0x0102, vec![0xFF]))])])]
    );
}

#[test]
fn a_delivered_packet_takes_its_messages_from_the_histories() {
    let mut sender = manager(2);
    sender.send_message(0, &9, &message(1));
    sender.send_message(1, &9, &message(2));
    sender.collect_outgoing_messages(0, &9, &0);
    assert!(packet(&mut sender, 40, 9).1);

    // a notice of a packet that carried nothing changes nothing
    sender.notify_packet_delivered(41);
    sender.collect_outgoing_messages(100, &9, &0);
    assert!(sender.has_outgoing_messages());
    assert!(packet(&mut sender, 42, 9).1);

    sender.notify_packet_delivered(40);
    sender.collect_outgoing_messages(200, &9, &0);
    assert!(!sender.has_outgoing_messages());
    // the later packet with the same messages has nothing left to take
    sender.notify_packet_delivered(42);
    assert!(!packet(&mut sender, 43, 9).1);
}

#[test]
fn a_dropped_packet_leaves_its_messages() {
    let mut sender = manager(1);
    sender.send_message(0, &9, &message(1));
    sender.collect_outgoing_messages(0, &9, &0);
    assert!(packet(&mut sender, 7, 9).1);
    sender.notify_packet_dropped(7);
    // the record is gone: a late acknowledgement finds nothing
    sender.notify_packet_delivered(7);
    sender.collect_outgoing_messages(100, &9, &0);
    let (bytes, has_written) = packet(&mut sender, 8, 9);
    assert!(has_written);

    let mut receiver = manager(1);
    let mut reader = BitReader::new(bytes.len(), bytes);
    assert_eq!(receiver.read_messages(&5, &9, &mut reader), Ok(()));
    assert_eq!(receiver.collect_incoming_messages(0, 9), vec![message(1)]);
}

#[test]
fn the_oldest_packet_of_a_number_is_meant() {
    let mut sender = manager(1);
    sender.send_message(0, &1, &message(1));
    sender.collect_outgoing_messages(0, &1, &0);
    assert!(packet(&mut sender, 5, 1).1);
    sender.send_message(0, &2, &message(2));
    sender.collect_outgoing_messages(0, &2, &1);
    // the number has gone round: another packet goes out under it
    assert!(packet(&mut sender, 5, 2).1);

    sender.notify_packet_delivered(5);
    sender.collect_outgoing_messages(100, &2, &0);
    let (bytes, _) = packet(&mut sender, 6, 2);
    let mut reader = BitReader::new(bytes.len(), bytes);
    let sections = read_sections(&mut reader, &2, 1).unwrap();
    // the message of tick 1 is delivered, that of tick 2 is still held
    assert_eq!(sections, vec![(0, vec![(2, vec![(0, message(2))])])]);
    sender.notify_packet_delivered(5);
    sender.collect_outgoing_messages(200, &2, &0);
    assert!(!sender.has_outgoing_messages());
}

#[test]
fn a_part_for_a_channel_that_is_not_there_is_refused() {
    let mut sender = manager(3);
    sender.send_message(2, &9, &message(1));
    sender.collect_outgoing_messages(0, &9, &0);
    let (bytes, _) = packet(&mut sender, 0, 9);

    let mut receiver = manager(2);
    let mut reader = BitReader::new(bytes.len(), bytes.clone());
    assert_eq!(receiver.read_messages(&5, &9, &mut reader), Err(SerdeErr));
    let mut receiver = manager(3);
    // without its end the packet is refused, and nothing is taken in
    let mut reader = BitReader::new(bytes.len() - 1, bytes.clone());
    assert_eq!(receiver.read_messages(&5, &9, &mut reader), Err(SerdeErr));
    assert_eq!(receiver.collect_incoming_messages(2, 9), vec![]);
    let mut reader = BitReader::new(bytes.len(), bytes);
    assert_eq!(receiver.read_messages(&5, &9, &mut reader), Ok(()));
    assert_eq!(receiver.collect_incoming_messages(2, 9), vec![message(1)]);
}

#[test]
fn every_channel_number_can_be_used() {
    let mut sender = manager(MAX_CHANNELS);
    let mut receiver = manager(MAX_CHANNELS);
    assert!(sender.can_send(255, &1));
    sender.send_message(255, &1, &message(255));
    sender.send_message(0, &1, &message(0));
    sender.collect_outgoing_messages(0, &1, &0);
    let (bytes, has_written) = packet(&mut sender, 0, 1);
    assert!(has_written);
    let mut reader = BitReader::new(bytes.len(), bytes);
    assert_eq!(receiver.read_messages(&0, &1, &mut reader), Ok(()));
    assert_eq!(receiver.collect_incoming_messages(0, 1), vec![message(0)]);
    assert_eq!(receiver.collect_incoming_messages(255, 1), vec![message(255)]);
    assert_eq!(receiver.collect_incoming_messages(254, 1), vec![]);
}

#[test]
fn a_channel_that_finds_no_room_is_passed_over() {
    let mut sender = manager(2);
    sender.send_message(0, &1, &Message::new(1, vec![0; 1100]));
    sender.send_message(1, &1, &Message::new(2, vec![1; 10]));
    sender.collect_outgoing_messages(0, &1, &0);
    let mut writer = BitWriter::new();
    writer.reserve_bits(1000);
    // the first channel writes an empty list, the second its message
    assert!(sender.write_messages(&mut writer, 0, &1));
    let (length, bytes) = writer.flush();
    let mut reader = BitReader::new(length, bytes);
    let sections = read_sections(&mut reader, &1, 2).unwrap();
    assert_eq!(
        sections,
        vec![(0, vec![]), (1, vec![(1, vec![(0, Message::new(2, vec![1; 10]))])])]
    );
    assert!(sender.has_outgoing_messages());

    // with ten bits of room no channel opens its part
    let mut writer = BitWriter::new();
    writer.reserve_bits(tick_channel::bits::MTU_SIZE_BITS - 10);
    assert!(!sender.write_messages(&mut writer, 1, &1));
    assert_eq!(writer.bit_count(), 1);
    // with eleven, the first channel writes that it has nothing that fits
    let mut writer = BitWriter::new();
    writer.reserve_bits(tick_channel::bits::MTU_SIZE_BITS - 11);
    assert!(!sender.write_messages(&mut writer, 2, &1));
    assert_eq!(writer.bit_count(), 11);
}
