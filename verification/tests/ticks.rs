use tick_channel::tick::{sequence_greater_than, sequence_less_than, wrapping_diff};

#[test]
fn greater_than_follows_the_circle() {
    assert!(sequence_greater_than(1, 0));
    assert!(!sequence_greater_than(0, 1));
    assert!(!sequence_greater_than(7, 7));
    // across the wrap
    assert!(sequence_greater_than(0, 65535));
    assert!(!sequence_greater_than(65535, 0));
    assert!(sequence_greater_than(5, 65530));
}

#[test]
fn greater_than_stops_short_of_half_the_circle() {
    assert!(sequence_greater_than(32767, 0));
    assert!(!sequence_greater_than(32768, 0));
    assert!(!sequence_greater_than(0, 32768));
    assert!(sequence_greater_than(0, 32769));
}

#[test]
fn less_than_mirrors_greater_than() {
    assert!(sequence_less_than(0, 1));
    assert!(!sequence_less_than(1, 0));
    assert!(sequence_less_than(65535, 0));
    assert!(!sequence_less_than(9, 9));
    assert!(!sequence_less_than(0, 32768));
}

#[test]
fn wrapping_diff_is_the_signed_shortest_way() {
    assert_eq!(wrapping_diff(1, 3), 2);
    assert_eq!(wrapping_diff(3, 1), -2);
    assert_eq!(wrapping_diff(4, 4), 0);
    assert_eq!(wrapping_diff(65535, 0), 1);
    assert_eq!(wrapping_diff(0, 65535), -1);
    assert_eq!(wrapping_diff(0, 32767), 32767);
    assert_eq!(wrapping_diff(0, 32768), -32768);
    assert_eq!(wrapping_diff(100, 95), -5);
}
