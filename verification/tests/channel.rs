use tick_channel::bits::{BitReader, BitWriter, SerdeErr, MTU_SIZE_BITS};
use tick_channel::channel_tick_buffer::{
    group_bit_len, parse_messages, ChannelTickBuffer, TickBufferSettings, MEASURED_LIST_COUNT,
};
use tick_channel::message::Message;

fn message(byte: u8) -> Message {
    Message::new(7, vec![byte, byte])
}

fn channel() -> ChannelTickBuffer {
    ChannelTickBuffer::new(&TickBufferSettings { resend_interval: 100 }, 0)
}

/// Writes what is staged into one packet and hands out its bytes.
fn packet(sender: &mut ChannelTickBuffer, host_tick: u16) -> (Vec<u8>, Option<Vec<(u16, u64)>>) {
    let mut writer = BitWriter::new();
    let in_flight = sender.write_messages(&mut writer, &host_tick);
    assert!(writer.bit_count() <= MTU_SIZE_BITS);
    let (_, bytes) = writer.flush();
    (bytes, in_flight)
}

fn deliver(receiver: &mut ChannelTickBuffer, bytes: Vec<u8>, host_tick: u16, remote_tick: u16) {
    let mut reader = BitReader::new(bytes.len(), bytes);
    assert_eq!(receiver.read_messages(&host_tick, &remote_tick, &mut reader), Ok(()));
}

#[test]
fn basic_delivery() {
    let mut client = channel();
    let mut server = channel();
    client.send_message(&100, &message(1));
    client.send_message(&101, &message(2));
    client.send_message(&102, &message(3));
    client.collect_outgoing_messages(0, &102, &99);
    assert!(client.has_outgoing_messages());
    let (bytes, in_flight) = packet(&mut client, 102);
    assert_eq!(in_flight, Some(vec![(102, 0), (101, 0), (100, 0)]));
    assert!(!client.has_outgoing_messages());

    deliver(&mut server, bytes, 99, 102);
    assert_eq!(server.collect_incoming_messages(100), vec![message(1)]);
    assert_eq!(server.collect_incoming_messages(101), vec![message(2)]);
    assert_eq!(server.collect_incoming_messages(102), vec![message(3)]);
    assert_eq!(server.collect_incoming_messages(103), vec![]);
}

#[test]
fn loss_and_retransmit() {
    let mut client = channel();
    client.send_message(&50, &message(5));
    client.collect_outgoing_messages(0, &50, &40);
    let (_, first) = packet(&mut client, 50);
    assert_eq!(first, Some(vec![(50, 0)]));

    // the packet is lost; before the interval is over nothing is staged
    client.collect_outgoing_messages(99, &51, &40);
    assert!(!client.has_outgoing_messages());
    client.collect_outgoing_messages(100, &51, &40);
    assert!(client.has_outgoing_messages());
    let (bytes, second) = packet(&mut client, 51);
    assert_eq!(second, Some(vec![(50, 0)]));

    let mut server = channel();
    deliver(&mut server, bytes, 45, 51);
    assert_eq!(server.collect_incoming_messages(50), vec![message(5)]);

    // once acknowledged, the message leaves the history
    client.notify_message_delivered(&50, &0);
    client.collect_outgoing_messages(200, &52, &40);
    assert!(!client.has_outgoing_messages());
    assert!(client.can_send(&0));
}

#[test]
fn prune_by_server_receivable() {
    let mut client = channel();
    client.send_message(&10, &message(10));
    client.send_message(&11, &message(11));
    client.send_message(&12, &message(12));
    client.collect_outgoing_messages(0, &15, &11);
    let (bytes, in_flight) = packet(&mut client, 15);
    assert_eq!(in_flight, Some(vec![(12, 0)]));

    let mut server = channel();
    deliver(&mut server, bytes, 9, 15);
    assert_eq!(server.collect_incoming_messages(10), vec![]);
    assert_eq!(server.collect_incoming_messages(11), vec![]);
    assert_eq!(server.collect_incoming_messages(12), vec![message(12)]);

    // the pruned ticks are gone for good
    client.collect_outgoing_messages(100, &15, &11);
    let (_, again) = packet(&mut client, 15);
    assert_eq!(again, Some(vec![(12, 0)]));
}

#[test]
fn a_tick_that_is_yet_to_come_is_not_staged() {
    let mut client = channel();
    client.send_message(&20, &message(1));
    client.send_message(&21, &message(2));
    client.collect_outgoing_messages(0, &19, &10);
    assert!(!client.has_outgoing_messages());
    client.collect_outgoing_messages(100, &20, &10);
    // the front entry is of tick 21: the scan stops there
    assert!(!client.has_outgoing_messages());
    client.collect_outgoing_messages(200, &21, &10);
    let (_, in_flight) = packet(&mut client, 21);
    assert_eq!(in_flight, Some(vec![(21, 0), (20, 0)]));
}

#[test]
fn sending_makes_the_next_round_due() {
    let mut client = channel();
    client.collect_outgoing_messages(50, &5, &0);
    client.send_message(&5, &message(1));
    // no interval has passed, but a message was sent
    client.collect_outgoing_messages(50, &5, &0);
    assert!(client.has_outgoing_messages());
    let (_, in_flight) = packet(&mut client, 5);
    assert_eq!(in_flight, Some(vec![(5, 0)]));
    client.collect_outgoing_messages(149, &5, &0);
    assert!(!client.has_outgoing_messages());
    client.collect_outgoing_messages(150, &5, &0);
    assert!(client.has_outgoing_messages());
}

#[test]
fn send_is_refused_for_a_tick_before_the_front() {
    let mut client = channel();
    assert!(client.can_send(&7));
    client.send_message(&7, &message(1));
    assert!(client.can_send(&7));
    assert!(client.can_send(&8));
    assert!(!client.can_send(&6));
    // half the circle away is neither before nor after
    assert!(!client.can_send(&(7 + 32768)));
    assert!(client.can_send(&(7 + 32767)));
}

#[test]
fn delivered_messages_are_not_sent_again_and_ids_stay() {
    let mut client = channel();
    client.send_message(&30, &message(0));
    client.send_message(&30, &message(1));
    client.send_message(&30, &message(2));
    client.notify_message_delivered(&30, &1);
    client.collect_outgoing_messages(0, &30, &20);
    let (bytes, in_flight) = packet(&mut client, 30);
    assert_eq!(in_flight, Some(vec![(30, 0), (30, 2)]));

    let mut reader = BitReader::new(bytes.len(), bytes);
    let groups = parse_messages(&mut reader, &30).unwrap();
    assert_eq!(groups, vec![(30, vec![(0, message(0)), (2, message(2))])]);
}

#[test]
fn group_bits_are_exact() {
    let messages = vec![(0u64, Message::new(0x0102, vec![0xAA])), (257, Message::new(3, vec![]))];
    // 4 bits for the distance 2, 4 for the count, then per message 8 for
    // the id, 16 for the kind, 4 for the length, and the payload
    assert_eq!(group_bit_len(&12, &10, &messages), Some(4 + 4 + (8 + 16 + 4 + 8) + (8 + 16 + 4)));
    let mut writer = BitWriter::new();
    let ids = ChannelTickBuffer::write_message(&mut writer, &12, &10, &messages);
    assert_eq!(ids, vec![0, 257]);
    assert_eq!(writer.bit_count(), 72);
    let (_, bytes) = writer.flush();
    assert_eq!(
        bytes,
        vec![0b0010_0010, 0x00, 0x01, 0x02, 0x1A, 0xA0, 0x10, 0x00, 0x30]
    );
}

#[test]
fn a_group_round_trips_whatever_the_tick_distance() {
    let mut state: u32 = 12345;
    for _ in 0..200 {
        state = state.wrapping_mul(1103515245).wrapping_add(12345);
        let last_tick = (state >> 8) as u16;
        state = state.wrapping_mul(1103515245).wrapping_add(12345);
        let delta = ((state >> 8) % 32768) as u16;
        let tick = last_tick.wrapping_sub(delta);
        state = state.wrapping_mul(1103515245).wrapping_add(12345);
        let count = (state >> 8) % 5;
        let mut messages = Vec::new();
        for id in 0..count {
            state = state.wrapping_mul(1103515245).wrapping_add(12345);
            let length = ((state >> 8) % 9) as usize;
            let payload: Vec<u8> = (0..length).map(|i| (state >> (i % 24)) as u8).collect();
            messages.push(((id as u64) * 100, Message::new((state >> 16) as u16, payload)));
        }
        let mut writer = BitWriter::new();
        tick_channel::message_list_header::write(&mut writer, 1);
        ChannelTickBuffer::write_message(&mut writer, &last_tick, &tick, &messages);
        let (length, bytes) = writer.flush();
        let mut reader = BitReader::new(length, bytes);
        let groups = parse_messages(&mut reader, &last_tick).unwrap();
        let expected: Vec<(u8, Message)> = messages
            .iter()
            .map(|(id, message)| ((id % 256) as u8, message.duplicate()))
            .collect();
        assert_eq!(groups, vec![(tick, expected)]);
    }
}

#[test]
fn ticks_are_chained_from_group_to_group() {
    let mut client = channel();
    client.send_message(&65534, &message(1));
    client.send_message(&65535, &message(2));
    client.send_message(&1, &message(3));
    client.collect_outgoing_messages(0, &1, &60000);
    let (bytes, _) = packet(&mut client, 3);
    let mut reader = BitReader::new(bytes.len(), bytes);
    let groups = parse_messages(&mut reader, &3).unwrap();
    assert_eq!(
        groups,
        vec![
            (1, vec![(0, message(3))]),
            (65535, vec![(0, message(2))]),
            (65534, vec![(0, message(1))]),
        ]
    );
}

#[test]
fn a_packet_never_exceeds_the_mtu() {
    let mut client = channel();
    let mut server = channel();
    // sixty ticks of three hundred bytes each: far more than one packet
    for tick in 1..=60u16 {
        client.send_message(&tick, &Message::new(1, vec![tick as u8; 300]));
    }
    client.collect_outgoing_messages(0, &60, &0);
    let mut packets = 0;
    let mut received = 0;
    while client.has_outgoing_messages() {
        let mut writer = BitWriter::new();
        let in_flight = client.write_messages(&mut writer, &60).unwrap();
        assert!(writer.bit_count() <= MTU_SIZE_BITS);
        // a group takes 4 + 4 + 8 + 16 + 12 + 2400 bits: three fit, a fourth does not
        assert_eq!(in_flight.len(), 3);
        if packets == 0 {
            assert_eq!(writer.bit_count(), 5 + 3 * 2444);
        }
        let (length, bytes) = writer.flush();
        let mut reader = BitReader::new(length, bytes);
        assert_eq!(server.read_messages(&0, &60, &mut reader), Ok(()));
        received += in_flight.len();
        packets += 1;
    }
    assert_eq!(packets, 20);
    assert_eq!(received, 60);
    for tick in 1..=60u16 {
        assert_eq!(
            server.collect_incoming_messages(tick),
            vec![Message::new(1, vec![tick as u8; 300])]
        );
    }
}

#[test]
fn where_no_group_fits_an_empty_list_is_written() {
    let mut client = channel();
    client.send_message(&1, &Message::new(1, vec![0; 100]));
    client.collect_outgoing_messages(0, &1, &0);
    let mut writer = BitWriter::new();
    writer.reserve_bits(MTU_SIZE_BITS - 200);
    assert_eq!(client.write_messages(&mut writer, &1), Some(vec![]));
    assert_eq!(writer.bit_count(), 1);
    // the group waits for a packet with more room
    assert!(client.has_outgoing_messages());
    let (bytes, in_flight) = packet(&mut client, 1);
    assert_eq!(in_flight, Some(vec![(1, 0)]));
    // 5 bits for the count, 44 in front of the payload, 800 of payload
    assert_eq!(bytes.len(), 107);
}

#[test]
fn a_message_too_large_for_any_packet_is_never_written() {
    let mut client = channel();
    client.send_message(&1, &Message::new(1, vec![0; 1200]));
    client.collect_outgoing_messages(0, &1, &0);
    let (bytes, in_flight) = packet(&mut client, 1);
    assert_eq!(in_flight, Some(vec![]));
    assert_eq!(bytes, vec![0]);
    assert!(client.has_outgoing_messages());
}

#[test]
fn with_nothing_staged_an_empty_list_is_written() {
    let mut client = channel();
    let (bytes, in_flight) = packet(&mut client, 1);
    assert_eq!(in_flight, Some(vec![]));
    assert_eq!(bytes, vec![0]);
    assert!(!client.has_outgoing_messages());
}

#[test]
fn without_room_to_begin_a_list_nothing_is_given_back() {
    let mut client = channel();
    client.send_message(&1, &Message::new(1, vec![]));
    client.collect_outgoing_messages(0, &1, &0);
    assert_eq!(MEASURED_LIST_COUNT, 123);
    assert_eq!(tick_channel::message_list_header::bit_len(MEASURED_LIST_COUNT), 13);
    // one bit short of the room that a list is measured with
    let mut writer = BitWriter::new();
    writer.reserve_bits(MTU_SIZE_BITS - 12);
    assert_eq!(client.write_messages(&mut writer, &1), None);
    assert_eq!(writer.bit_count(), 1);
    assert_eq!(writer.flush().1, vec![0]);
    assert!(client.has_outgoing_messages());
    // with that room a list is begun, though no group fits
    let mut writer = BitWriter::new();
    writer.reserve_bits(MTU_SIZE_BITS - 13);
    assert_eq!(client.write_messages(&mut writer, &1), Some(vec![]));
    assert_eq!(writer.bit_count(), 1);
    assert!(client.has_outgoing_messages());
    // the least room for the one bit
    let mut writer = BitWriter::new();
    writer.reserve_bits(MTU_SIZE_BITS - 1);
    assert_eq!(client.write_messages(&mut writer, &1), None);
    assert_eq!(writer.bit_count(), 1);
    // the group takes 5 + 4 + 4 + 8 + 16 + 4 bits
    let mut writer = BitWriter::new();
    writer.reserve_bits(MTU_SIZE_BITS - 41);
    assert_eq!(client.write_messages(&mut writer, &1), Some(vec![(1, 0)]));
    assert_eq!(writer.bit_count(), 41);
    assert!(!client.has_outgoing_messages());
}

#[test]
fn a_packet_that_cannot_be_read_changes_nothing() {
    let mut client = channel();
    client.send_message(&10, &message(1));
    client.send_message(&11, &message(2));
    client.collect_outgoing_messages(0, &11, &0);
    let (bytes, _) = packet(&mut client, 11);

    let mut server = channel();
    // the last byte is missing
    let mut reader = BitReader::new(bytes.len() - 1, bytes.clone());
    assert_eq!(server.read_messages(&5, &11, &mut reader), Err(SerdeErr));
    assert_eq!(server.collect_incoming_messages(10), vec![]);
    assert_eq!(server.collect_incoming_messages(11), vec![]);
    let mut reader = BitReader::new(bytes.len(), bytes);
    assert_eq!(server.read_messages(&11, &11, &mut reader), Ok(()));
    // all messages came too late for the host
    assert_eq!(server.collect_incoming_messages(11), vec![]);
}

#[test]
fn a_packet_received_twice_gives_each_message_once() {
    let mut client = channel();
    client.send_message(&42, &message(7));
    client.collect_outgoing_messages(0, &42, &0);
    let (bytes, _) = packet(&mut client, 42);
    let mut server = channel();
    deliver(&mut server, bytes.clone(), 40, 42);
    deliver(&mut server, bytes, 40, 42);
    assert_eq!(server.collect_incoming_messages(42), vec![message(7)]);
    assert_eq!(server.collect_incoming_messages(42), vec![]);
}

#[test]
fn short_ids_wrap_after_256_messages_of_one_tick() {
    let mut client = channel();
    for id in 0..257u16 {
        client.send_message(&5, &Message::new(id, vec![]));
    }
    client.collect_outgoing_messages(0, &5, &0);
    let (bytes, in_flight) = packet(&mut client, 5);
    let in_flight = in_flight.unwrap();
    assert_eq!(in_flight.len(), 257);
    assert_eq!(in_flight[256], (5, 256));

    let mut reader = BitReader::new(bytes.len(), bytes.clone());
    let groups = parse_messages(&mut reader, &5).unwrap();
    assert_eq!(groups[0].1[255], (255, Message::new(255, vec![])));
    assert_eq!(groups[0].1[256], (0, Message::new(256, vec![])));

    // the receiver takes the message 256 for a copy of the message 0
    let mut server = channel();
    deliver(&mut server, bytes, 0, 5);
    let received = server.collect_incoming_messages(5);
    assert_eq!(received.len(), 256);
    assert_eq!(received[0], Message::new(0, vec![]));
    assert_eq!(received[255], Message::new(255, vec![]));
}

#[test]
fn groups_staged_twice_are_written_twice() {
    let mut client = channel();
    client.send_message(&8, &message(1));
    client.collect_outgoing_messages(0, &8, &0);
    client.send_message(&9, &message(2));
    client.collect_outgoing_messages(0, &9, &0);
    let (bytes, in_flight) = packet(&mut client, 9);
    // the first round's group, then the second round's two
    assert_eq!(in_flight, Some(vec![(8, 0), (9, 0), (8, 0)]));
    let mut reader = BitReader::new(bytes.len(), bytes.clone());
    let groups = parse_messages(&mut reader, &9).unwrap();
    assert_eq!(
        groups.iter().map(|group| group.0).collect::<Vec<u16>>(),
        vec![8, 9, 8]
    );
    let mut server = channel();
    deliver(&mut server, bytes, 0, 9);
    assert_eq!(server.collect_incoming_messages(8), vec![message(1)]);
    assert_eq!(server.collect_incoming_messages(9), vec![message(2)]);
}
