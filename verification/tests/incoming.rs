use tick_channel::incoming::IncomingMessages;
use tick_channel::message::Message;

fn message(byte: u8) -> Message {
    Message::new(2, vec![byte])
}

fn drain(buffer: &mut IncomingMessages, tick: u16) -> Vec<Message> {
    let mut output = Vec::new();
    while let Some(message) = buffer.pop_front(tick) {
        output.push(message);
    }
    output
}

#[test]
fn a_message_for_a_tick_that_has_passed_is_refused() {
    let mut buffer = IncomingMessages::new();
    assert!(!buffer.push_back(&10, &10, 0, message(1)));
    assert!(!buffer.push_back(&9, &10, 0, message(1)));
    assert!(!buffer.push_back(&65535, &0, 0, message(1)));
    assert!(buffer.push_back(&11, &10, 0, message(1)));
    assert!(buffer.push_back(&0, &65535, 0, message(2)));
    assert_eq!(drain(&mut buffer, 9), vec![]);
}

#[test]
fn messages_come_out_at_their_tick() {
    let mut buffer = IncomingMessages::new();
    // arrival in no order
    assert!(buffer.push_back(&12, &5, 0, message(12)));
    assert!(buffer.push_back(&10, &5, 0, message(10)));
    assert!(buffer.push_back(&11, &5, 0, message(11)));
    assert!(buffer.push_back(&14, &5, 0, message(14)));
    assert_eq!(drain(&mut buffer, 10), vec![message(10)]);
    assert_eq!(drain(&mut buffer, 11), vec![message(11)]);
    assert_eq!(drain(&mut buffer, 12), vec![message(12)]);
    assert_eq!(drain(&mut buffer, 13), vec![]);
    assert_eq!(drain(&mut buffer, 14), vec![message(14)]);
    assert_eq!(drain(&mut buffer, 14), vec![]);
}

#[test]
fn the_messages_of_one_tick_come_out_in_the_order_of_their_ids() {
    let mut buffer = IncomingMessages::new();
    // arrival in no order
    assert!(buffer.push_back(&20, &5, 3, message(3)));
    assert!(buffer.push_back(&20, &5, 1, message(1)));
    assert!(buffer.push_back(&20, &5, 255, message(255)));
    assert!(buffer.push_back(&20, &5, 0, message(0)));
    assert!(buffer.push_back(&20, &5, 2, message(2)));
    assert_eq!(buffer.pop_front(20), Some(message(0)));
    assert_eq!(buffer.pop_front(20), Some(message(1)));
    assert_eq!(buffer.pop_front(20), Some(message(2)));
    assert_eq!(buffer.pop_front(20), Some(message(3)));
    assert_eq!(buffer.pop_front(20), Some(message(255)));
    assert_eq!(buffer.pop_front(20), None);
}

#[test]
fn an_id_is_free_again_once_its_message_is_out() {
    let mut buffer = IncomingMessages::new();
    assert!(buffer.push_back(&20, &5, 7, message(1)));
    assert!(buffer.push_back(&20, &5, 8, message(2)));
    assert_eq!(buffer.pop_front(20), Some(message(1)));
    assert!(!buffer.push_back(&20, &5, 8, message(3)));
    assert!(buffer.push_back(&20, &5, 7, message(4)));
    assert_eq!(drain(&mut buffer, 20), vec![message(4), message(2)]);
}

#[test]
fn dedup() {
    let mut buffer = IncomingMessages::new();
    assert!(buffer.push_back(&42, &40, 7, message(1)));
    assert!(!buffer.push_back(&42, &40, 7, message(1)));
    // another payload under the same key is a copy all the same
    assert!(!buffer.push_back(&42, &40, 7, message(9)));
    // the same short id under another tick is not
    assert!(buffer.push_back(&43, &40, 7, message(2)));
    assert_eq!(drain(&mut buffer, 42), vec![message(1)]);
    assert_eq!(drain(&mut buffer, 43), vec![message(2)]);
}

#[test]
fn pop_front_drops_what_is_older() {
    let mut buffer = IncomingMessages::new();
    assert!(buffer.push_back(&10, &5, 0, message(10)));
    assert!(buffer.push_back(&11, &5, 0, message(11)));
    assert!(buffer.push_back(&13, &5, 0, message(13)));
    // nothing waits for tick 12, and the older entries go
    assert_eq!(buffer.pop_front(12), None);
    assert_eq!(buffer.pop_front(10), None);
    assert_eq!(buffer.pop_front(11), None);
    assert_eq!(buffer.pop_front(13), Some(message(13)));
    assert_eq!(buffer.pop_front(13), None);
}

#[test]
fn pop_front_leaves_what_is_newer() {
    let mut buffer = IncomingMessages::new();
    assert!(buffer.push_back(&10, &5, 0, message(10)));
    assert!(buffer.push_back(&12, &5, 0, message(12)));
    assert_eq!(buffer.pop_front(9), None);
    assert_eq!(buffer.pop_front(10), Some(message(10)));
    assert_eq!(buffer.pop_front(11), None);
    assert_eq!(buffer.pop_front(12), Some(message(12)));
}

#[test]
fn order_holds_across_the_wrap() {
    let mut buffer = IncomingMessages::new();
    assert!(buffer.push_back(&1, &65530, 0, message(3)));
    assert!(buffer.push_back(&65535, &65530, 0, message(1)));
    assert!(buffer.push_back(&0, &65530, 0, message(2)));
    assert!(!buffer.push_back(&0, &65530, 0, message(2)));
    assert_eq!(drain(&mut buffer, 65535), vec![message(1)]);
    assert_eq!(drain(&mut buffer, 0), vec![message(2)]);
    assert_eq!(drain(&mut buffer, 1), vec![message(3)]);
}

#[test]
fn a_copy_is_known_wherever_its_tick_stands() {
    let mut buffer = IncomingMessages::new();
    for tick in [30u16, 10, 20, 40] {
        assert!(buffer.push_back(&tick, &5, 1, message(tick as u8)));
    }
    for tick in [10u16, 20, 30, 40] {
        assert!(!buffer.push_back(&tick, &5, 1, message(0)));
    }
    for tick in [10u16, 20, 30, 40] {
        assert_eq!(drain(&mut buffer, tick), vec![message(tick as u8)]);
    }
}
