use tick_channel::bits::{BitReader, BitWriter, MTU_SIZE_BYTES};
use tick_channel::framing::write_bytes;
use tick_channel::handshake_manager::{
    digest_matches, read_connect_request, read_signed_timestamp, HandshakeManager,
    HandshakeState, AUTH_ROOM_BITS, DIGEST_BYTES,
};
use tick_channel::message::Message;
use tick_channel::standard_header::{PacketType, StandardHeader};
use tick_channel::wire::Serde;

/// A stand-in for the server's keyed digest.
fn digest_of(key: u64, timestamp: u64) -> Vec<u8> {
    let mut state = key ^ timestamp.rotate_left(17);
    (0..DIGEST_BYTES)
        .map(|_| {
            state = state
                .wrapping_mul(6364136223846793005)
                .wrapping_add(1442695040888963407);
            (state >> 56) as u8
        })
        .collect()
}

fn challenge_response(timestamp: u64, digest: &Vec<u8>) -> BitReader {
    let mut writer = BitWriter::new();
    StandardHeader::new(PacketType::ServerChallengeResponse, 0, 0, 0, 0).ser(&mut writer);
    timestamp.ser(&mut writer);
    write_bytes(&mut writer, digest);
    let (length, bytes) = writer.flush();
    BitReader::new(length, bytes)
}

fn bare(packet_type: PacketType) -> BitReader {
    let mut writer = BitWriter::new();
    StandardHeader::new(packet_type, 0, 0, 0, 0).ser(&mut writer);
    let (length, bytes) = writer.flush();
    BitReader::new(length, bytes)
}

fn reader_of(mut writer: BitWriter) -> BitReader {
    let (length, bytes) = writer.flush();
    assert!(length <= MTU_SIZE_BYTES);
    BitReader::new(length, bytes)
}

#[test]
fn the_handshake_runs_its_course() {
    let key = 0xFEED;
    let mut client = HandshakeManager::new(1000, 0, 777);
    assert_eq!(client.connection_state(), HandshakeState::AwaitingChallengeResponse);
    assert!(!client.is_connected());

    // step 1: the first packet is due at once
    let mut request = reader_of(client.send(0).unwrap());
    let header = StandardHeader::de(&mut request).unwrap();
    assert_eq!(header, StandardHeader::new(PacketType::ClientChallengeRequest, 0, 0, 0, 0));
    assert_eq!(request.read::<u64>(), Ok(777));

    // step 2
    let digest = digest_of(key, 777);
    assert!(client.recv(&mut challenge_response(777, &digest)));
    assert_eq!(client.connection_state(), HandshakeState::AwaitingConnectResponse);
    assert!(client.has_digest());

    // step 3: the next packet is due after the interval
    assert!(client.send(999).is_none());
    let mut request = reader_of(client.send(1000).unwrap());
    let header = StandardHeader::de(&mut request).unwrap();
    assert_eq!(header.packet_type(), PacketType::ClientConnectRequest);
    let body = read_connect_request(&mut request).unwrap();
    assert_eq!(body.timestamp, 777);
    assert_eq!(body.digest, digest);
    assert_eq!(body.auth, None);
    assert!(digest_matches(&body.digest, &digest_of(key, body.timestamp)));

    // step 4
    assert!(client.recv(&mut bare(PacketType::ServerConnectResponse)));
    assert!(client.is_connected());
    assert_eq!(client.connection_state(), HandshakeState::Connected);
    assert!(client.send(5000).is_none());
}

#[test]
fn packets_are_sent_again_until_answered() {
    let mut client = HandshakeManager::new(1000, 500, 1);
    let first = client.send(500).unwrap().flush();
    assert!(client.send(1499).is_none());
    let second = client.send(1500).unwrap().flush();
    assert_eq!(first, second);
    assert!(client.send(1500).is_none());
    assert!(client.send(2500).is_some());
}

#[test]
fn handshake_packet_bytes_are_exact() {
    let mut client = HandshakeManager::new(1000, 0, 0x0102030405060708);
    let (length, bytes) = client.write_challenge_request().flush();
    assert_eq!(length, 16);
    assert_eq!(bytes, vec![0, 0, 0, 0, 0, 0, 0, 0, 1, 2, 3, 4, 5, 6, 7, 8]);

    let digest: Vec<u8> = (100..132).collect();
    assert!(client.recv(&mut challenge_response(0x0102030405060708, &digest)));
    let (length, bytes) = client.write_connect_request().flush();
    assert_eq!(length, 8 + 8 + 32 + 1);
    assert_eq!(&bytes[0..8], &[2, 0, 0, 0, 0, 0, 0, 0]);
    assert_eq!(&bytes[8..16], &[1, 2, 3, 4, 5, 6, 7, 8]);
    assert_eq!(&bytes[16..48], &digest[..]);
    assert_eq!(bytes[48], 0);

    let (length, bytes) = client.write_disconnect().flush();
    assert_eq!(length, 8 + 8 + 32);
    assert_eq!(&bytes[0..8], &[8, 0, 0, 0, 0, 0, 0, 0]);
    assert_eq!(&bytes[8..16], &[1, 2, 3, 4, 5, 6, 7, 8]);
    assert_eq!(&bytes[16..48], &digest[..]);
}

#[test]
fn the_auth_message_travels_with_the_connect_request() {
    let mut client = HandshakeManager::new(1000, 0, 42);
    let auth = Message::new(11, vec![b'c', b'h', b'a', b'r', b'l', b'i', b'e']);
    assert!(client.set_auth_message(auth.duplicate()));
    let digest = digest_of(1, 42);
    assert!(client.recv(&mut challenge_response(42, &digest)));

    let (length, bytes) = client.write_connect_request().flush();
    assert_eq!(bytes[48], 1);
    let mut request = BitReader::new(length, bytes);
    StandardHeader::de(&mut request).unwrap();
    let body = read_connect_request(&mut request).unwrap();
    assert_eq!(body.auth, Some(auth));
}

#[test]
fn an_auth_message_that_does_not_fit_is_refused() {
    let mut client = HandshakeManager::new(1000, 0, 42);
    let small = Message::new(1, vec![1]);
    assert!(client.set_auth_message(small.duplicate()));
    // the payload alone takes the room
    let large = Message::new(2, vec![0; AUTH_ROOM_BITS / 8]);
    assert!(!client.set_auth_message(large));
    // kind, three groups of length and the payload fill the room to the bit
    let exact = Message::new(3, vec![7; (AUTH_ROOM_BITS - 28) / 8]);
    assert_eq!(exact.bit_len(), Some(AUTH_ROOM_BITS));
    assert!(client.set_auth_message(exact.duplicate()));

    assert!(client.recv(&mut challenge_response(42, &digest_of(1, 42))));
    let (length, bytes) = client.write_connect_request().flush();
    assert_eq!(length, MTU_SIZE_BYTES);
    let mut request = BitReader::new(length, bytes);
    StandardHeader::de(&mut request).unwrap();
    assert_eq!(read_connect_request(&mut request).unwrap().auth, Some(exact));
}

#[test]
fn a_challenge_response_for_another_timestamp_is_dropped() {
    let mut client = HandshakeManager::new(1000, 0, 777);
    assert!(!client.recv(&mut challenge_response(778, &digest_of(1, 778))));
    assert_eq!(client.connection_state(), HandshakeState::AwaitingChallengeResponse);
    assert!(!client.has_digest());
    // one bit off
    assert!(!client.recv(&mut challenge_response(777 ^ (1 << 63), &digest_of(1, 777))));
    assert!(!client.has_digest());
    assert!(client.recv(&mut challenge_response(777, &digest_of(1, 777))));
}

#[test]
fn a_packet_that_cannot_be_read_is_dropped() {
    let mut client = HandshakeManager::new(1000, 0, 777);
    // no header
    assert!(!client.recv(&mut BitReader::new(3, vec![1, 0, 0])));
    // a digest that is cut short
    let mut writer = BitWriter::new();
    StandardHeader::new(PacketType::ServerChallengeResponse, 0, 0, 0, 0).ser(&mut writer);
    777u64.ser(&mut writer);
    write_bytes(&mut writer, &vec![9; DIGEST_BYTES - 1]);
    assert!(!client.recv(&mut reader_of(writer)));
    assert_eq!(client.connection_state(), HandshakeState::AwaitingChallengeResponse);
    assert!(!client.has_digest());
}

#[test]
fn packets_of_other_types_are_ignored() {
    let mut client = HandshakeManager::new(1000, 0, 777);
    for packet_type in [
        PacketType::ClientChallengeRequest,
        PacketType::ClientConnectRequest,
        PacketType::Data,
        PacketType::Heartbeat,
        PacketType::Ping,
        PacketType::Pong,
        PacketType::Disconnect,
    ] {
        assert!(!client.recv(&mut bare(packet_type)));
        assert_eq!(client.connection_state(), HandshakeState::AwaitingChallengeResponse);
    }
}

#[test]
fn a_second_challenge_response_changes_nothing() {
    let mut client = HandshakeManager::new(1000, 0, 777);
    let digest = digest_of(1, 777);
    assert!(client.recv(&mut challenge_response(777, &digest)));
    // the digest that came first stays
    assert!(!client.recv(&mut challenge_response(777, &digest_of(2, 777))));
    assert_eq!(client.connection_state(), HandshakeState::AwaitingConnectResponse);
    let mut request = reader_of(client.write_connect_request());
    StandardHeader::de(&mut request).unwrap();
    assert_eq!(read_signed_timestamp(&mut request), Ok((777, digest)));

    assert!(client.recv(&mut bare(PacketType::ServerConnectResponse)));
    assert!(!client.recv(&mut challenge_response(777, &digest_of(3, 777))));
    assert!(client.is_connected());
}

#[test]
fn a_connect_response_connects_whatever_the_state() {
    let mut client = HandshakeManager::new(1000, 0, 777);
    assert!(client.recv(&mut bare(PacketType::ServerConnectResponse)));
    assert!(client.is_connected());
    assert!(!client.has_digest());
}

#[test]
fn handshake_replay_resistance() {
    let key = 0xC0FFEE;
    // an earlier session of some client, which an attacker has recorded
    let mut earlier = HandshakeManager::new(1000, 0, 1000);
    assert!(earlier.recv(&mut challenge_response(1000, &digest_of(0xBAD, 1000))));
    let (recorded_length, recorded) = earlier.write_connect_request().flush();

    // the session of the legitimate client
    let mut client = HandshakeManager::new(1000, 5000, 5000);
    assert!(client.recv(&mut challenge_response(5000, &digest_of(key, 5000))));
    let (legitimate_length, legitimate) = client.write_connect_request().flush();

    let accepts = |length: usize, bytes: Vec<u8>| {
        let mut reader = BitReader::new(length, bytes);
        let header = StandardHeader::de(&mut reader).unwrap();
        assert_eq!(header.packet_type(), PacketType::ClientConnectRequest);
        let request = read_connect_request(&mut reader).unwrap();
        digest_matches(&request.digest, &digest_of(key, request.timestamp))
    };
    assert!(accepts(legitimate_length, legitimate.clone()));
    // the replayed request carries a digest that the server never gave
    assert!(!accepts(recorded_length, recorded));
    // one digest under another timestamp is no pass either
    let mut forged = legitimate.clone();
    forged[15] ^= 1;
    assert!(!accepts(legitimate_length, forged));
    let mut forged = legitimate.clone();
    forged[47] ^= 0x80;
    assert!(!accepts(legitimate_length, forged));

    // the legitimate client's session goes on as before
    assert_eq!(client.connection_state(), HandshakeState::AwaitingConnectResponse);
    assert!(accepts(legitimate_length, client.write_connect_request().flush().1));
    assert!(client.recv(&mut bare(PacketType::ServerConnectResponse)));
    assert!(client.is_connected());
}

#[test]
fn digests_are_compared_byte_for_byte() {
    let digest = digest_of(1, 2);
    assert!(digest_matches(&digest, &digest.clone()));
    for at in [0, 15, 31] {
        let mut other = digest.clone();
        other[at] ^= 1;
        assert!(!digest_matches(&digest, &other));
    }
    assert!(!digest_matches(&digest, &digest[..31].to_vec()));
    assert!(digest_matches(&vec![], &vec![]));
}
