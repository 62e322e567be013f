use tick_channel::message::Message;
use tick_channel::outgoing::{OutgoingMessages, MESSAGE_HISTORY_SIZE};

fn message(byte: u8) -> Message {
    Message::new(1, vec![byte])
}

fn ticks(history: &OutgoingMessages) -> Vec<u16> {
    history.iter().iter().map(|entry| entry.0).collect()
}

#[test]
fn push_keeps_the_most_recent_tick_in_front() {
    let mut history = OutgoingMessages::new();
    assert_eq!(history.front_tick(), None);
    history.push(5, message(1));
    history.push(6, message(2));
    history.push(9, message(3));
    assert_eq!(history.front_tick(), Some(9));
    assert_eq!(ticks(&history), vec![9, 6, 5]);
}

#[test]
fn push_at_the_front_tick_joins_its_entry() {
    let mut history = OutgoingMessages::new();
    history.push(5, message(1));
    history.push(5, message(2));
    history.push(6, message(3));
    history.push(6, message(4));
    history.push(6, message(5));
    assert_eq!(
        history.iter(),
        vec![
            (6, vec![(0, message(3)), (1, message(4)), (2, message(5))]),
            (5, vec![(0, message(1)), (1, message(2))]),
        ]
    );
}

#[test]
fn push_across_the_wrap() {
    let mut history = OutgoingMessages::new();
    history.push(65534, message(1));
    history.push(65535, message(2));
    history.push(0, message(3));
    history.push(1, message(4));
    assert_eq!(ticks(&history), vec![1, 0, 65535, 65534]);
}

#[test]
fn the_history_is_bounded() {
    let mut history = OutgoingMessages::new();
    let size = MESSAGE_HISTORY_SIZE;
    for tick in 0..(size + 6) {
        history.push(tick, message(tick as u8));
    }
    let held = ticks(&history);
    assert_eq!(held.len(), size as usize);
    assert_eq!(held[0], size + 5);
    // the oldest six are gone
    assert_eq!(held[held.len() - 1], 6);
}

#[test]
fn pop_back_until_excluding_drops_the_old() {
    let mut history = OutgoingMessages::new();
    for tick in 10..15 {
        history.push(tick, message(tick as u8));
    }
    history.pop_back_until_excluding(&11);
    assert_eq!(ticks(&history), vec![14, 13, 12]);
    // nothing is older than the bound
    history.pop_back_until_excluding(&5);
    assert_eq!(ticks(&history), vec![14, 13, 12]);
    history.pop_back_until_excluding(&14);
    assert_eq!(ticks(&history), Vec::<u16>::new());
    history.pop_back_until_excluding(&14);
    assert_eq!(ticks(&history), Vec::<u16>::new());
}

#[test]
fn remove_message_empties_the_slot() {
    let mut history = OutgoingMessages::new();
    history.push(5, message(1));
    history.push(5, message(2));
    history.push(6, message(3));
    history.remove_message(&5, &0);
    assert_eq!(
        history.iter(),
        vec![(6, vec![(0, message(3))]), (5, vec![(1, message(2))])]
    );
}

#[test]
fn remove_message_reaps_an_empty_entry() {
    let mut history = OutgoingMessages::new();
    history.push(5, message(1));
    history.push(6, message(2));
    history.push(7, message(3));
    history.remove_message(&6, &0);
    assert_eq!(ticks(&history), vec![7, 5]);
    history.remove_message(&7, &0);
    history.remove_message(&5, &0);
    assert_eq!(ticks(&history), Vec::<u16>::new());
    assert_eq!(history.front_tick(), None);
}

#[test]
fn remove_message_of_what_is_not_held_changes_nothing() {
    let mut history = OutgoingMessages::new();
    history.push(5, message(1));
    history.push(7, message(2));
    // a tick between two entries, one older than all, one newer than all
    history.remove_message(&6, &0);
    history.remove_message(&4, &0);
    history.remove_message(&8, &0);
    // an id that was never handed out, and one that is gone already
    history.remove_message(&5, &3);
    assert_eq!(
        history.iter(),
        vec![(7, vec![(0, message(2))]), (5, vec![(0, message(1))])]
    );
}

#[test]
fn every_entry_holds_a_message_through_sends_and_deliveries() {
    let mut history = OutgoingMessages::new();
    for tick in 100..110u16 {
        history.push(tick, message(1));
        history.push(tick, message(2));
    }
    for tick in 100..110u16 {
        if tick % 2 == 0 {
            history.remove_message(&tick, &0);
            history.remove_message(&tick, &1);
        } else {
            history.remove_message(&tick, &1);
        }
    }
    let entries = history.iter();
    assert_eq!(
        entries.iter().map(|entry| entry.0).collect::<Vec<u16>>(),
        vec![109, 107, 105, 103, 101]
    );
    for (index, entry) in entries.iter().enumerate() {
        assert!(!entry.1.is_empty());
        if index > 0 {
            assert!(tick_channel::tick::sequence_greater_than(
                entries[index - 1].0,
                entry.0
            ));
        }
    }
}
