use tick_channel::ack_manager::{AckManager, PacketNotice};
use tick_channel::base_connection::{BaseConnection, ConnectionConfig};
use tick_channel::bits::{BitReader, BitWriter, SerdeErr, MTU_SIZE_BITS};
use tick_channel::channel_tick_buffer::TickBufferSettings;
use tick_channel::message::Message;
use tick_channel::standard_header::{PacketType, StandardHeader};
use tick_channel::timer::Timer;
use tick_channel::wire::Serde;

fn channels(count: usize) -> Vec<TickBufferSettings> {
    vec![TickBufferSettings { resend_interval: 100 }; count]
}

fn connection(now: u64) -> BaseConnection {
    let config = ConnectionConfig::new(3000, 10000).unwrap();
    BaseConnection::new(&config, &channels(1), now)
}

fn connection_of(count: usize) -> BaseConnection {
    BaseConnection::new(&ConnectionConfig::default(), &channels(count), 0)
}

fn message(byte: u8) -> Message {
    Message::new(4, vec![byte])
}

/// Stages and writes one data packet, and hands out its bytes.
fn data_packet(sender: &mut BaseConnection, now: u64, tick: u16) -> (Vec<u8>, bool) {
    sender.collect_outgoing_messages(now, &tick, &tick.wrapping_sub(20));
    let mut writer = BitWriter::new();
    let packet_index = sender.next_packet_index();
    sender.write_outgoing_header(PacketType::Data, &mut writer);
    let has_written = sender.write_outgoing_packet(&mut writer, packet_index, &tick);
    assert!(writer.bit_count() <= MTU_SIZE_BITS);
    sender.mark_sent(now);
    let (_, bytes) = writer.flush();
    (bytes, has_written)
}

fn bare_packet(sender: &mut BaseConnection, now: u64, packet_type: PacketType) -> Vec<u8> {
    let mut writer = BitWriter::new();
    sender.write_outgoing_header(packet_type, &mut writer);
    sender.mark_sent(now);
    writer.flush().1
}

fn receive(
    receiver: &mut BaseConnection,
    bytes: Vec<u8>,
    now: u64,
    host_tick: u16,
    remote_tick: u16,
) -> (StandardHeader, Vec<PacketNotice>) {
    let mut reader = BitReader::new(bytes.len(), bytes);
    receiver
        .process_incoming_packet(now, &host_tick, &remote_tick, &mut reader)
        .unwrap()
}

#[test]
fn timeout() {
    let config = ConnectionConfig::new(3000, 10000).unwrap();
    let connection = BaseConnection::new(&config, &channels(1), 0);
    assert!(!connection.should_drop(0));
    assert!(!connection.should_drop(9900));
    assert!(connection.should_drop(10000));
    assert!(connection.should_drop(10001));
}

#[test]
fn hearing_from_the_peer_puts_the_timeout_off() {
    let mut connection = connection(0);
    connection.mark_heard(6000);
    assert!(!connection.should_drop(10000));
    assert!(!connection.should_drop(15999));
    assert!(connection.should_drop(16000));
    // sending does not
    connection.mark_sent(15000);
    assert!(connection.should_drop(16000));
}

#[test]
fn a_heartbeat_is_due_after_the_interval() {
    let mut connection = connection(1000);
    assert!(!connection.should_send_heartbeat(1000));
    assert!(!connection.should_send_heartbeat(3999));
    assert!(connection.should_send_heartbeat(4000));
    connection.mark_sent(4000);
    assert!(!connection.should_send_heartbeat(6999));
    assert!(connection.should_send_heartbeat(7000));
    // hearing does not put the heartbeat off
    connection.mark_heard(7000);
    assert!(connection.should_send_heartbeat(7000));
}

#[test]
fn a_clock_that_runs_back_counts_as_no_time_passed() {
    let mut timer = Timer::new(50, 1000);
    assert!(!timer.ringing(900));
    assert!(!timer.ringing(1049));
    assert!(timer.ringing(1050));
    timer.reset(2000);
    assert!(!timer.ringing(1050));
    timer.ring_manual();
    assert!(timer.ringing(0));
    timer.reset(0);
    assert!(!timer.ringing(49));
    assert!(Timer::new(0, 10).ringing(5));
}

#[test]
fn the_heartbeat_must_come_more_than_twice_per_timeout() {
    assert!(ConnectionConfig::new(3000, 10000).is_some());
    assert!(ConnectionConfig::new(4999, 10000).is_some());
    assert!(ConnectionConfig::new(5000, 10000).is_none());
    assert!(ConnectionConfig::new(0, 0).is_none());
    assert!(ConnectionConfig::new(u64::MAX, u64::MAX).is_none());
    let default = ConnectionConfig::default();
    assert!(default.is_valid());
    assert_eq!(default.heartbeat_interval, 3000);
    assert_eq!(default.disconnection_timeout_duration, 10000);
}

#[test]
fn packets_are_numbered_in_turn() {
    let mut acks = AckManager::new();
    assert_eq!(acks.next_sender_packet_index(), 0);
    let first = acks.next_outgoing_packet_header(PacketType::Data);
    assert_eq!(first, StandardHeader::new(PacketType::Data, 0, 65535, 0, 0));
    let second = acks.next_outgoing_packet_header(PacketType::Ping);
    assert_eq!(second, StandardHeader::new(PacketType::Ping, 1, 65535, 0, 0));
    assert_eq!(acks.next_sender_packet_index(), 2);
}

#[test]
fn the_packet_number_wraps() {
    let mut acks = AckManager::new();
    let mut last = acks.next_outgoing_packet_header(PacketType::Data);
    for _ in 0..65535u32 {
        last = acks.next_outgoing_packet_header(PacketType::Data);
    }
    assert_eq!(last.packet_index, 65535);
    assert_eq!(acks.next_sender_packet_index(), 0);
}

#[test]
fn headers_report_what_was_received() {
    let mut acks = AckManager::new();
    for index in [0u16, 1, 3, 4, 7] {
        acks.process_incoming_header(&StandardHeader::new(PacketType::Data, index, 0, 0, 0));
    }
    let header = acks.next_outgoing_packet_header(PacketType::Heartbeat);
    assert_eq!(header.last_remote_index, 7);
    // bit k stands for packet 6 - k: packets 4, 3, 1 and 0 were received
    assert_eq!(header.ack_bitfield, 0b0110_1100);

    // a late packet within the window finds its bit
    acks.process_incoming_header(&StandardHeader::new(PacketType::Data, 5, 0, 0, 0));
    // one received twice, and one far behind the window, change nothing
    acks.process_incoming_header(&StandardHeader::new(PacketType::Data, 5, 0, 0, 0));
    acks.process_incoming_header(&StandardHeader::new(PacketType::Data, 65000, 0, 0, 0));
    let header = acks.next_outgoing_packet_header(PacketType::Heartbeat);
    assert_eq!(header.last_remote_index, 7);
    assert_eq!(header.ack_bitfield, 0b0110_1110);

    // the window moves on by twenty: only packet 7 is within sixteen
    acks.process_incoming_header(&StandardHeader::new(PacketType::Data, 22, 0, 0, 0));
    let header = acks.next_outgoing_packet_header(PacketType::Heartbeat);
    assert_eq!(header.last_remote_index, 22);
    assert_eq!(header.ack_bitfield, 1 << 14);

    // and by forty: nothing of before is
    acks.process_incoming_header(&StandardHeader::new(PacketType::Data, 62, 0, 0, 0));
    let header = acks.next_outgoing_packet_header(PacketType::Heartbeat);
    assert_eq!(header.ack_bitfield, 0);
}

#[test]
fn the_first_header_received_sets_the_window() {
    let mut acks = AckManager::new();
    acks.process_incoming_header(&StandardHeader::new(PacketType::Data, 0, 0, 0, 0));
    let header = acks.next_outgoing_packet_header(PacketType::Heartbeat);
    assert_eq!(header.last_remote_index, 0);
    // the packet before the first was never received
    assert_eq!(header.ack_bitfield, 0);
    acks.process_incoming_header(&StandardHeader::new(PacketType::Data, 1, 0, 0, 0));
    let header = acks.next_outgoing_packet_header(PacketType::Heartbeat);
    assert_eq!(header.last_remote_index, 1);
    assert_eq!(header.ack_bitfield, 1);
}

#[test]
fn notices_come_in_the_order_of_sending() {
    let mut acks = AckManager::new();
    for _ in 0..20 {
        acks.next_outgoing_packet_header(PacketType::Data);
    }
    // the peer has received 19, 17 and 16; 18 may still come; what lies
    // more than sixteen before 19 is lost
    let notices = acks.process_incoming_header(&StandardHeader::new(
        PacketType::Heartbeat,
        0,
        19,
        0b110,
        0,
    ));
    assert_eq!(
        notices,
        vec![
            PacketNotice::Dropped(0),
            PacketNotice::Dropped(1),
            PacketNotice::Dropped(2),
            PacketNotice::Delivered(16),
            PacketNotice::Delivered(17),
            PacketNotice::Delivered(19),
        ]
    );
    // no packet is spoken of twice
    let notices = acks.process_incoming_header(&StandardHeader::new(
        PacketType::Heartbeat,
        1,
        19,
        0b111,
        0,
    ));
    assert_eq!(notices, vec![PacketNotice::Delivered(18)]);
    let notices = acks.process_incoming_header(&StandardHeader::new(
        PacketType::Heartbeat,
        2,
        40,
        0xFFFF,
        0,
    ));
    assert_eq!(
        notices,
        (3..16).map(PacketNotice::Dropped).collect::<Vec<PacketNotice>>()
    );
}

#[test]
fn a_report_on_packets_yet_to_be_sent_is_no_notice() {
    let mut acks = AckManager::new();
    acks.next_outgoing_packet_header(PacketType::Data);
    let notices = acks.process_incoming_header(&StandardHeader::new(
        PacketType::Heartbeat,
        0,
        65535,
        0,
        0,
    ));
    assert_eq!(notices, vec![]);
    let notices = acks.process_incoming_header(&StandardHeader::new(
        PacketType::Heartbeat,
        1,
        0,
        0,
        0,
    ));
    assert_eq!(notices, vec![PacketNotice::Delivered(0)]);
}

#[test]
fn data_packet_bytes_are_exact() {
    let mut client = connection(0);
    client.message_manager_mut().send_message(0, &9, &Message::new(0x0102, vec![0xFF]));
    let (bytes, has_written) = data_packet(&mut client, 0, 9);
    assert!(has_written);
    assert_eq!(
        bytes,
        vec![
            // header: data packet 0, nothing received yet
            4, 0, 0, 0xFF, 0xFF, 0, 0, 0,
            // a channel follows (1), and seven bits of its number 0
            0b1000_0000,
            // the number's last bit; one group (1 0001); the distance 0 (0000) begins
            0b0100_0100,
            // the distance ends; one message (0001); the id 0 begins
            0b0000_0100,
            // the id ends; the kind 0x0102
            0b0000_0000, 0b0000_0100,
            // the kind ends; the length 1 (0001) begins
            0b0000_1000,
            // the length ends; the payload 0xFF
            0b0111_1111,
            // the payload ends; the bit that ends the messages; padding
            0b1100_0000,
        ]
    );
}

#[test]
fn an_idle_data_packet_is_header_and_one_bit() {
    let mut client = connection(0);
    let (bytes, has_written) = data_packet(&mut client, 0, 9);
    assert!(!has_written);
    assert_eq!(bytes, vec![4, 0, 0, 0xFF, 0xFF, 0, 0, 0, 0]);
    let mut server = connection(0);
    let (header, notices) = receive(&mut server, bytes, 5, 8, 9);
    assert_eq!(header.packet_type(), PacketType::Data);
    assert_eq!(notices, vec![]);
}

#[test]
fn messages_travel_and_are_acknowledged() {
    let mut client = connection(0);
    let mut server = connection(0);
    assert!(client.message_manager().can_send(0, &100));
    assert!(!client.message_manager().can_send(1, &100));
    client.message_manager_mut().send_message(0, &100, &message(1));
    client.message_manager_mut().send_message(0, &101, &message(2));
    let (bytes, has_written) = data_packet(&mut client, 0, 101);
    assert!(has_written);

    let (header, notices) = receive(&mut server, bytes, 7, 99, 101);
    assert_eq!(header.packet_index, 0);
    assert_eq!(notices, vec![]);
    assert_eq!(server.message_manager_mut().collect_incoming_messages(0, 100), vec![message(1)]);
    assert_eq!(server.message_manager_mut().collect_incoming_messages(0, 101), vec![message(2)]);

    // the server's next packet tells the client that packet 0 arrived
    let reply = bare_packet(&mut server, 8, PacketType::Heartbeat);
    let (header, notices) = receive(&mut client, reply, 9, 101, 101);
    assert_eq!(header, StandardHeader::new(PacketType::Heartbeat, 0, 0, 0, 0));
    assert_eq!(notices, vec![PacketNotice::Delivered(0)]);

    // nothing is left to send again
    let (_, has_written) = data_packet(&mut client, 500, 102);
    assert!(!has_written);
}

#[test]
fn a_lost_packet_is_sent_again() {
    let mut client = connection(0);
    let mut server = connection(0);
    client.message_manager_mut().send_message(0, &50, &message(5));
    let (_lost, has_written) = data_packet(&mut client, 0, 50);
    assert!(has_written);

    // the server hears nothing of packet 0, and says so
    let reply = bare_packet(&mut server, 50, PacketType::Heartbeat);
    let (_, notices) = receive(&mut client, reply, 60, 50, 50);
    assert_eq!(notices, vec![]);

    let (bytes, has_written) = data_packet(&mut client, 100, 51);
    assert!(has_written);
    let (header, _) = receive(&mut server, bytes, 110, 45, 51);
    assert_eq!(header.packet_index, 1);
    assert_eq!(server.message_manager_mut().collect_incoming_messages(0, 50), vec![message(5)]);

    // packet 1 is acknowledged, packet 0 is not: the message is delivered
    let reply = bare_packet(&mut server, 120, PacketType::Heartbeat);
    let (header, notices) = receive(&mut client, reply, 130, 51, 51);
    assert_eq!(header.last_remote_index, 1);
    assert_eq!(header.ack_bitfield, 0);
    assert_eq!(notices, vec![PacketNotice::Delivered(1)]);
    let (_, has_written) = data_packet(&mut client, 300, 52);
    assert!(!has_written);
}

#[test]
fn a_dropped_packet_leaves_its_messages_to_be_sent_again() {
    let mut client = connection(0);
    client.message_manager_mut().send_message(0, &10, &message(1));
    let (_, has_written) = data_packet(&mut client, 0, 10);
    assert!(has_written);
    for _ in 0..20 {
        bare_packet(&mut client, 0, PacketType::Heartbeat);
    }
    // the peer has received packet 20 and the sixteen before it, not packet 0
    let mut writer = BitWriter::new();
    StandardHeader::new(PacketType::Heartbeat, 0, 20, 0xFFFF, 0).ser(&mut writer);
    let (header, notices) = receive(&mut client, writer.flush().1, 10, 10, 10);
    assert_eq!(header.last_remote_index, 20);
    assert_eq!(notices.len(), 21);
    assert_eq!(notices[0], PacketNotice::Dropped(0));
    assert_eq!(notices[1], PacketNotice::Dropped(1));
    assert_eq!(notices[4], PacketNotice::Delivered(4));

    let (bytes, has_written) = data_packet(&mut client, 100, 10);
    assert!(has_written);
    let mut server = connection(0);
    receive(&mut server, bytes, 0, 5, 10);
    assert_eq!(server.message_manager_mut().collect_incoming_messages(0, 10), vec![message(1)]);
}

#[test]
fn a_packet_that_cannot_be_read_is_not_heard() {
    let mut client = connection(0);
    client.message_manager_mut().send_message(0, &10, &message(1));
    let (bytes, _) = data_packet(&mut client, 0, 10);

    let mut server = connection(0);
    let mut reader = BitReader::new(bytes.len() - 2, bytes.clone());
    assert_eq!(
        server.process_incoming_packet(9000, &5, &10, &mut reader),
        Err(SerdeErr)
    );
    let mut reader = BitReader::new(3, bytes.clone());
    assert_eq!(
        server.process_incoming_packet(9000, &5, &10, &mut reader),
        Err(SerdeErr)
    );
    // an unknown channel
    let mut wrong = bytes.clone();
    wrong[8] = 0b1000_0001;
    let mut reader = BitReader::new(wrong.len(), wrong);
    assert_eq!(
        server.process_incoming_packet(9000, &5, &10, &mut reader),
        Err(SerdeErr)
    );
    // the timeout was not put off, and nothing was taken in
    assert!(server.should_drop(10000));
    assert_eq!(server.message_manager_mut().collect_incoming_messages(0, 10), vec![]);
    let reply = bare_packet(&mut server, 9000, PacketType::Heartbeat);
    assert_eq!(reply, vec![5, 0, 0, 0xFF, 0xFF, 0, 0, 0]);

    receive(&mut server, bytes, 9000, 5, 10);
    assert!(!server.should_drop(10000));
    assert_eq!(server.message_manager_mut().collect_incoming_messages(0, 10), vec![message(1)]);
}

#[test]
fn any_packet_that_can_be_read_counts_as_heard() {
    let mut client = connection(0);
    let mut server = connection(0);
    let ping = bare_packet(&mut client, 9999, PacketType::Ping);
    let (header, _) = receive(&mut server, ping, 9999, 0, 0);
    assert_eq!(header.packet_type(), PacketType::Ping);
    assert!(!server.should_drop(10000));
    assert!(!server.should_drop(19998));
    assert!(server.should_drop(19999));
}

#[test]
fn each_channel_has_its_part_of_the_packet() {
    let mut client = connection_of(3);
    let mut server = connection_of(3);
    assert_eq!(client.message_manager().channel_count(), 3);
    client.message_manager_mut().send_message(0, &7, &message(10));
    client.message_manager_mut().send_message(2, &7, &message(30));
    client.message_manager_mut().send_message(2, &8, &message(31));
    assert!(!client.message_manager().has_outgoing_messages());
    client.collect_outgoing_messages(0, &8, &0);
    assert!(client.message_manager().has_outgoing_messages());

    let mut writer = BitWriter::new();
    let packet_index = client.next_packet_index();
    client.write_outgoing_header(PacketType::Data, &mut writer);
    assert!(client.write_outgoing_packet(&mut writer, packet_index, &8));
    assert!(!client.message_manager().has_outgoing_messages());
    let (_, bytes) = writer.flush();
    // the channels 0 and 2 follow each other; the channel 1 has no part
    assert_eq!(bytes[8], 0b1000_0000);
    assert_eq!(bytes[9] >> 7, 0);

    receive(&mut server, bytes, 0, 5, 8);
    let manager = server.message_manager_mut();
    assert_eq!(manager.collect_incoming_messages(0, 7), vec![message(10)]);
    assert_eq!(manager.collect_incoming_messages(1, 7), vec![]);
    assert_eq!(manager.collect_incoming_messages(2, 7), vec![message(30)]);
    assert_eq!(manager.collect_incoming_messages(2, 8), vec![message(31)]);
    assert_eq!(manager.collect_incoming_messages(0, 8), vec![]);
}

#[test]
fn an_acknowledgement_reaches_the_channel_of_each_message() {
    let mut client = connection_of(2);
    let mut server = connection_of(2);
    client.message_manager_mut().send_message(0, &7, &message(1));
    client.message_manager_mut().send_message(1, &7, &message(2));
    let (bytes, has_written) = data_packet(&mut client, 0, 7);
    assert!(has_written);
    receive(&mut server, bytes, 0, 5, 7);
    let reply = bare_packet(&mut server, 0, PacketType::Heartbeat);
    let (_, notices) = receive(&mut client, reply, 0, 7, 7);
    assert_eq!(notices, vec![PacketNotice::Delivered(0)]);
    // both histories are empty: nothing is staged again
    let (_, has_written) = data_packet(&mut client, 1000, 8);
    assert!(!has_written);
    assert!(client.message_manager().can_send(0, &0));
    assert!(client.message_manager().can_send(1, &0));
}

#[test]
fn channels_share_the_room_of_a_packet_in_their_order() {
    let mut client = connection_of(2);
    let mut server = connection_of(2);
    for tick in 1..=3u16 {
        client.message_manager_mut().send_message(0, &tick, &Message::new(1, vec![0; 500]));
        client.message_manager_mut().send_message(1, &tick, &Message::new(2, vec![1; 500]));
    }
    client.collect_outgoing_messages(0, &3, &0);
    let mut received = [0usize; 2];
    let mut packets = 0;
    while client.message_manager().has_outgoing_messages() {
        let mut writer = BitWriter::new();
        let packet_index = client.next_packet_index();
        client.write_outgoing_header(PacketType::Data, &mut writer);
        assert!(client.write_outgoing_packet(&mut writer, packet_index, &3));
        assert!(writer.bit_count() <= MTU_SIZE_BITS);
        let (_, bytes) = writer.flush();
        receive(&mut server, bytes, 0, 0, 3);
        packets += 1;
        for channel in 0..2u8 {
            for tick in 1..=3u16 {
                received[channel as usize] +=
                    server.message_manager_mut().collect_incoming_messages(channel, tick).len();
            }
        }
        if packets == 1 {
            // two groups of the first channel fit, then none of the second
            assert_eq!(received, [2, 0]);
        }
    }
    assert_eq!(packets, 3);
    assert_eq!(received, [3, 3]);
}

#[test]
fn parts_out_of_order_are_refused() {
    let mut client = connection_of(2);
    client.message_manager_mut().send_message(0, &7, &message(1));
    client.message_manager_mut().send_message(1, &7, &message(2));
    let (bytes, _) = data_packet(&mut client, 0, 7);

    // each part takes 58 bits: the last bit of the first channel's number
    // is the first bit of byte 9, that of the second the third of byte 16
    assert_eq!(bytes.len(), 8 + 15);
    assert_eq!(bytes[9] & 0b1000_0000, 0);
    assert_eq!(bytes[16] & 0b0010_0000, 0b0010_0000);

    // the same packet with its two parts named 1 and 0
    let mut swapped = bytes.clone();
    swapped[9] |= 0b1000_0000;
    swapped[16] &= 0b1101_1111;
    let mut server = connection_of(2);
    let mut reader = BitReader::new(swapped.len(), swapped);
    assert_eq!(server.process_incoming_packet(0, &5, &7, &mut reader), Err(SerdeErr));
    assert_eq!(server.message_manager_mut().collect_incoming_messages(1, 7), vec![]);

    // and one that names the channel 0 twice
    let mut twice = bytes.clone();
    twice[16] &= 0b1101_1111;
    let mut reader = BitReader::new(twice.len(), twice);
    assert_eq!(server.process_incoming_packet(0, &5, &7, &mut reader), Err(SerdeErr));

    receive(&mut server, bytes, 0, 5, 7);
    assert_eq!(server.message_manager_mut().collect_incoming_messages(0, 7), vec![message(1)]);
    assert_eq!(server.message_manager_mut().collect_incoming_messages(1, 7), vec![message(2)]);
}

#[test]
fn a_connection_may_have_no_channel() {
    let mut client = connection_of(0);
    let mut server = connection_of(0);
    assert!(!client.message_manager().can_send(0, &1));
    let (bytes, has_written) = data_packet(&mut client, 0, 1);
    assert!(!has_written);
    assert_eq!(bytes.len(), 9);
    let (header, _) = receive(&mut server, bytes, 0, 0, 1);
    assert_eq!(header.packet_type(), PacketType::Data);
}
