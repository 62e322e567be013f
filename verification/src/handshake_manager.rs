//! The client's side of the handshake that opens a connection: the client
//! names a timestamp, the server answers with a digest of it, and the two
//! together are the client's pass from then on.

use crate::bits::{
    BitReader, BitWriter, MTU_SIZE_BITS, SerdeErr, bits_of_bytes, bits_of_value,
    lemma_value_of_bits, value_of,
};
use crate::framing::{
    bytes_of_bits, lemma_bytes_round_trip, lemma_message_round_trip, message_bits, parse_message,
    read_bytes, write_bytes,
};
use crate::message::{Message, MessageView};
use crate::standard_header::{HEADER_BITS, PacketType, StandardHeader, header_bits, parse_header};
use crate::timer::{Millis, Timer};
use crate::wire::Serde;
use vstd::arithmetic::power2::{lemma2_to64, lemma2_to64_rest};
use vstd::prelude::*;

verus! {

/// How far the handshake has come.
#[derive(Clone, Copy, Debug, PartialEq, Eq, Structural)]
pub enum HandshakeState {
    AwaitingChallengeResponse,
    AwaitingConnectResponse,
    Connected,
}

/// The moment at which a client began its handshake, as the client's clock
/// gave it. It serves as a number used once.
pub type Timestamp = u64;

/// How many bytes a digest has.
pub const DIGEST_BYTES: usize = 32;

/// How many times in a row a client sends the packet that says that it
/// leaves, so that one of them is likely to arrive.
pub const DISCONNECT_PACKETS: usize = 10;

/// How many bits a timestamp with its digest takes.
pub const SIGNED_TIMESTAMP_BITS: usize = 64 + 8 * DIGEST_BYTES;

/// How many bits the message that a client sends along to say who it is
/// may take, so that the request to connect fits in one packet.
pub const AUTH_ROOM_BITS: usize = MTU_SIZE_BITS - HEADER_BITS - SIGNED_TIMESTAMP_BITS - 8;

/// The header of a handshake packet: it carries the type and nothing else.
pub open spec fn bare_header(packet_type: PacketType) -> StandardHeader {
    StandardHeader {
        packet_type,
        packet_index: 0,
        last_remote_index: 0,
        ack_bitfield: 0,
        extra: 0,
    }
}

/// The bits that stand for a timestamp and its digest.
pub open spec fn signed_timestamp_bits(timestamp: Timestamp, digest: Seq<u8>) -> Seq<bool> {
    bits_of_value(timestamp as nat, 64) + bits_of_bytes(digest)
}

/// The timestamp and the digest that the coming bits stand for, and the
/// bits behind them.
pub open spec fn parse_signed_timestamp(bits: Seq<bool>) -> Option<
    ((Timestamp, Seq<u8>), Seq<bool>),
> {
    if bits.len() < SIGNED_TIMESTAMP_BITS {
        None
    } else {
        Some(
            (
                (
                    value_of(bits.take(64)) as u64,
                    bytes_of_bits(bits.subrange(64, SIGNED_TIMESTAMP_BITS as int)),
                ),
                bits.skip(SIGNED_TIMESTAMP_BITS as int),
            ),
        )
    }
}

/// The bits of the packet that asks the server for a challenge.
pub open spec fn challenge_request_bits(timestamp: Timestamp) -> Seq<bool> {
    header_bits(bare_header(PacketType::ClientChallengeRequest)) + bits_of_value(
        timestamp as nat,
        64,
    )
}

/// The bits that say whether a message follows, and the message.
pub open spec fn auth_bits(auth: Option<MessageView>) -> Seq<bool> {
    match auth {
        Some(message) => bits_of_value(1, 8) + message_bits(message),
        None => bits_of_value(0, 8),
    }
}

/// The bits of the packet that asks the server to connect.
pub open spec fn connect_request_bits(
    timestamp: Timestamp,
    digest: Seq<u8>,
    auth: Option<MessageView>,
) -> Seq<bool> {
    header_bits(bare_header(PacketType::ClientConnectRequest)) + signed_timestamp_bits(
        timestamp,
        digest,
    ) + auth_bits(auth)
}

/// The bits of the packet that tells the server that the client leaves.
pub open spec fn disconnect_bits(timestamp: Timestamp, digest: Seq<u8>) -> Seq<bool> {
    header_bits(bare_header(PacketType::Disconnect)) + signed_timestamp_bits(timestamp, digest)
}

/// What a request to connect holds behind its header.
pub struct ConnectRequest {
    pub timestamp: Timestamp,
    pub digest: Vec<u8>,
    pub auth: Option<Message>,
}

/// What a request to connect holds, as mathematical values.
pub open spec fn parse_connect_request(bits: Seq<bool>) -> Option<
    (Timestamp, Seq<u8>, Option<MessageView>),
> {
    match parse_signed_timestamp(bits) {
        Some(((timestamp, digest), rest)) => if rest.len() < 8 {
            None
        } else if value_of(rest.take(8)) == 0 {
            Some((timestamp, digest, None))
        } else if value_of(rest.take(8)) == 1 {
            match parse_message(rest.skip(8)) {
                Some((message, _)) => Some((timestamp, digest, Some(message))),
                None => None,
            }
        } else {
            None
        },
        None => None,
    }
}

/// A timestamp and digest that were written are those that are read, and
/// what stood behind them is what is left.
pub proof fn lemma_signed_timestamp_round_trip(
    timestamp: Timestamp,
    digest: Seq<u8>,
    rest: Seq<bool>,
)
    requires
        digest.len() == DIGEST_BYTES,
    ensures
        signed_timestamp_bits(timestamp, digest).len() == SIGNED_TIMESTAMP_BITS,
        parse_signed_timestamp(signed_timestamp_bits(timestamp, digest) + rest) == Some(
            ((timestamp, digest), rest),
        ),
{
    let stream = signed_timestamp_bits(timestamp, digest) + rest;
    lemma2_to64_rest();
    assert(stream.take(64) =~= bits_of_value(timestamp as nat, 64));
    lemma_value_of_bits(timestamp as nat, 64);
    assert(stream.subrange(64, SIGNED_TIMESTAMP_BITS as int) =~= bits_of_bytes(digest));
    lemma_bytes_round_trip(digest);
    assert(stream.skip(SIGNED_TIMESTAMP_BITS as int) =~= rest);
}

/// What the body of a request to connect was written from is what is read
/// from it.
pub proof fn lemma_connect_request_round_trip(
    timestamp: Timestamp,
    digest: Seq<u8>,
    auth: Option<MessageView>,
)
    requires
        digest.len() == DIGEST_BYTES,
        auth matches Some(message) ==> message.payload.len() <= u64::MAX,
    ensures
        parse_connect_request(signed_timestamp_bits(timestamp, digest) + auth_bits(auth))
            == Some((timestamp, digest, auth)),
{
    let tail = auth_bits(auth);
    lemma_signed_timestamp_round_trip(timestamp, digest, tail);
    lemma2_to64();
    match auth {
        Some(message) => {
            assert(tail.take(8) =~= bits_of_value(1, 8));
            lemma_value_of_bits(1, 8);
            assert(tail.skip(8) =~= message_bits(message) + Seq::<bool>::empty());
            lemma_message_round_trip(message, Seq::empty());
        },
        None => {
            assert(tail.take(8) =~= bits_of_value(0, 8));
            lemma_value_of_bits(0, 8);
        },
    }
}

/// Reads a timestamp and its digest.
pub fn read_signed_timestamp(reader: &mut BitReader) -> (r: Result<
    (Timestamp, Vec<u8>),
    SerdeErr,
>)
    requires
        old(reader).wf(),
    ensures
        final(reader).wf(),
        match r {
            Ok(signed) => parse_signed_timestamp(old(reader)@) == Some(
                ((signed.0, signed.1@), final(reader)@),
            ),
            Err(_) => parse_signed_timestamp(old(reader)@) is None && final(reader)@ == old(
                reader,
            )@,
        },
{
    let ghost before = reader@;
    if !reader.has_bits(SIGNED_TIMESTAMP_BITS) {
        return Err(SerdeErr);
    }
    let timestamp = reader.read_bits(64)?;
    match read_bytes(reader, DIGEST_BYTES) {
        Ok(digest) => {
            proof {
                assert(before.skip(64).take(8 * DIGEST_BYTES as int) =~= before.subrange(
                    64,
                    SIGNED_TIMESTAMP_BITS as int,
                ));
                assert(before.skip(64).skip(8 * DIGEST_BYTES as int) =~= before.skip(
                    SIGNED_TIMESTAMP_BITS as int,
                ));
            }
            Ok((timestamp, digest))
        },
        Err(e) => Err(e),
    }
}

/// Reads what a request to connect holds behind its header.
pub fn read_connect_request(reader: &mut BitReader) -> (r: Result<ConnectRequest, SerdeErr>)
    requires
        old(reader).wf(),
    ensures
        final(reader).wf(),
        match r {
            Ok(request) => parse_connect_request(old(reader)@) == Some(
                (
                    request.timestamp,
                    request.digest@,
                    match request.auth {
                        Some(message) => Some(message@),
                        None => None,
                    },
                ),
            ),
            Err(_) => parse_connect_request(old(reader)@) is None,
        },
{
    let (timestamp, digest) = read_signed_timestamp(reader)?;
    let present = reader.read_bits(8)?;
    if present == 0 {
        Ok(ConnectRequest { timestamp, digest, auth: None })
    } else if present == 1 {
        match Message::read(reader) {
            Ok(message) => Ok(ConnectRequest { timestamp, digest, auth: Some(message) }),
            Err(e) => Err(e),
        }
    } else {
        Err(SerdeErr)
    }
}

/// Whether two digests are the same, byte for byte.
pub fn digest_matches(digest: &Vec<u8>, expected: &Vec<u8>) -> (r: bool)
    ensures
        r == (digest@ == expected@),
{
    if digest.len() != expected.len() {
        return false;
    }
    let mut i: usize = 0;
    while i < digest.len()
        invariant
            i <= digest@.len(),
            digest@.len() == expected@.len(),
            digest@.take(i as int) == expected@.take(i as int),
        decreases digest@.len() - i,
    {
        if digest[i] != expected[i] {
            assert(digest@[i as int] != expected@[i as int]);
            return false;
        }
        i += 1;
        assert(digest@.take(i as int) =~= digest@.take(i - 1).push(digest@[i - 1]));
        assert(expected@.take(i as int) =~= expected@.take(i - 1).push(expected@[i - 1]));
    }
    assert(digest@.take(i as int) =~= digest@);
    assert(expected@.take(i as int) =~= expected@);
    true
}

/// Drives a client through the handshake.
pub struct HandshakeManager {
    handshake_timer: Timer,
    pre_connection_timestamp: Timestamp,
    pre_connection_digest: Option<Vec<u8>>,
    connection_state: HandshakeState,
    auth_message: Option<Message>,
}

impl HandshakeManager {
    /// How far the handshake has come.
    pub closed spec fn state(&self) -> HandshakeState {
        self.connection_state
    }

    /// The timestamp that the client has named.
    pub closed spec fn timestamp(&self) -> Timestamp {
        self.pre_connection_timestamp
    }

    /// The digest that the server has answered with, once it has.
    pub closed spec fn digest(&self) -> Option<Seq<u8>> {
        match self.pre_connection_digest {
            Some(digest) => Some(digest@),
            None => None,
        }
    }

    /// The message that says who the client is, if it has one.
    pub closed spec fn auth(&self) -> Option<MessageView> {
        match self.auth_message {
            Some(message) => Some(message@),
            None => None,
        }
    }

    /// The timer that paces the client's packets.
    pub closed spec fn timer(&self) -> Timer {
        self.handshake_timer
    }

    /// A client that waits to connect has its digest; a digest has its
    /// length; and the message that says who the client is fits in the
    /// request to connect.
    pub open spec fn wf(&self) -> bool {
        &&& self.state() == HandshakeState::AwaitingConnectResponse ==> self.digest() is Some
        &&& self.digest() matches Some(digest) ==> digest.len() == DIGEST_BYTES
        &&& self.auth() matches Some(message) ==> message_bits(message).len() <= AUTH_ROOM_BITS
    }

    /// A client that begins its handshake at `now` under `timestamp`. Its
    /// first packet is due at once, the later ones every `send_interval`.
    pub fn new(send_interval: Millis, now: Millis, timestamp: Timestamp) -> (r: HandshakeManager)
        ensures
            r.wf(),
            r.state() == HandshakeState::AwaitingChallengeResponse,
            r.timestamp() == timestamp,
            r.digest() is None,
            r.auth() is None,
            r.timer().duration() == send_interval,
            r.timer().last() == now,
            r.timer().forced(),
    {
        let mut handshake_timer = Timer::new(send_interval, now);
        handshake_timer.ring_manual();
        HandshakeManager {
            handshake_timer,
            pre_connection_timestamp: timestamp,
            pre_connection_digest: None,
            connection_state: HandshakeState::AwaitingChallengeResponse,
            auth_message: None,
        }
    }

    /// Sets the message that says who the client is, and says whether it
    /// was taken: it is not where it would not fit in the request to
    /// connect.
    pub fn set_auth_message(&mut self, auth: Message) -> (r: bool)
        requires
            old(self).wf(),
        ensures
            final(self).wf(),
            r == (message_bits(auth@).len() <= AUTH_ROOM_BITS),
            final(self).auth() == if r {
                Some(auth@)
            } else {
                old(self).auth()
            },
            final(self).state() == old(self).state(),
            final(self).timestamp() == old(self).timestamp(),
            final(self).digest() == old(self).digest(),
            final(self).timer() == old(self).timer(),
    {
        match auth.bit_len() {
            Some(bits) => {
                if bits <= AUTH_ROOM_BITS {
                    self.auth_message = Some(auth);
                    true
                } else {
                    false
                }
            },
            None => false,
        }
    }

    /// Whether the handshake has run its course.
    pub fn is_connected(&self) -> (r: bool)
        ensures
            r == (self.state() == HandshakeState::Connected),
    {
        self.connection_state == HandshakeState::Connected
    }

    /// How far the handshake has come.
    pub fn connection_state(&self) -> (r: HandshakeState)
        ensures
            r == self.state(),
    {
        self.connection_state
    }

    /// Whether the server's digest has come in.
    pub fn has_digest(&self) -> (r: bool)
        ensures
            r == (self.digest() is Some),
    {
        self.pre_connection_digest.is_some()
    }

    /// The packet that is due at `now`, if one is: none before the timer
    /// rings and none once connected, else the request that the state of
    /// the handshake calls for.
    pub fn send(&mut self, now: Millis) -> (r: Option<BitWriter>)
        requires
            old(self).wf(),
        ensures
            final(self).wf(),
            final(self).state() == old(self).state(),
            final(self).timestamp() == old(self).timestamp(),
            final(self).digest() == old(self).digest(),
            final(self).auth() == old(self).auth(),
            final(self).timer() == if old(self).timer().rings(now) {
                Timer::new_spec(old(self).timer().duration(), now)
            } else {
                old(self).timer()
            },
            match r {
                Some(writer) => {
                    &&& old(self).timer().rings(now)
                    &&& writer.wf()
                    &&& match old(self).state() {
                        HandshakeState::AwaitingChallengeResponse => writer@
                            == challenge_request_bits(old(self).timestamp()),
                        HandshakeState::AwaitingConnectResponse => writer@
                            == connect_request_bits(
                            old(self).timestamp(),
                            old(self).digest().unwrap(),
                            old(self).auth(),
                        ),
                        HandshakeState::Connected => false,
                    }
                },
                None => !old(self).timer().rings(now) || old(self).state()
                    == HandshakeState::Connected,
            },
    {
        if !self.handshake_timer.ringing(now) {
            return None;
        }
        self.handshake_timer.reset(now);
        match self.connection_state {
            HandshakeState::Connected => {
                // do nothing, not necessary
                None
            },
            HandshakeState::AwaitingChallengeResponse => Some(self.write_challenge_request()),
            HandshakeState::AwaitingConnectResponse => Some(self.write_connect_request()),
        }
    }

    /// Takes in a packet of the server and says whether it moved the
    /// handshake on. A challenge response does so where the client waits
    /// for one and the response echoes the client's timestamp: its digest
    /// is kept. A connect response always does. Any other packet, and one
    /// that cannot be read, changes nothing.
    pub fn recv(&mut self, reader: &mut BitReader) -> (r: bool)
        requires
            old(self).wf(),
            old(reader).wf(),
        ensures
            final(self).wf(),
            final(reader).wf(),
            final(self).timestamp() == old(self).timestamp(),
            final(self).auth() == old(self).auth(),
            final(self).timer() == old(self).timer(),
            match parse_header(old(reader)@) {
                Some((header, rest)) => match header.packet_type {
                    PacketType::ServerChallengeResponse => {
                        &&& r == old(self).accepts_challenge(rest)
                        &&& final(self).state() == if r {
                            HandshakeState::AwaitingConnectResponse
                        } else {
                            old(self).state()
                        }
                        &&& final(self).digest() == if r {
                            Some(parse_signed_timestamp(rest).unwrap().0.1)
                        } else {
                            old(self).digest()
                        }
                    },
                    PacketType::ServerConnectResponse => {
                        &&& r
                        &&& final(self).state() == HandshakeState::Connected
                        &&& final(self).digest() == old(self).digest()
                    },
                    _ => !r && final(self).state() == old(self).state() && final(self).digest()
                        == old(self).digest(),
                },
                None => !r && final(self).state() == old(self).state() && final(self).digest()
                    == old(self).digest(),
            },
    {
        let header = match StandardHeader::de(reader) {
            Ok(header) => header,
            Err(_) => {
                return false;
            },
        };
        match header.packet_type() {
            PacketType::ServerChallengeResponse => self.recv_challenge_response(reader),
            PacketType::ServerConnectResponse => {
                self.recv_connect_response();
                true
            },
            _ => false,
        }
    }

    /// Whether a challenge response with this body moves the handshake on:
    /// the client waits for one, and the body holds the client's timestamp
    /// and a digest.
    pub open spec fn accepts_challenge(&self, body: Seq<bool>) -> bool {
        &&& self.state() == HandshakeState::AwaitingChallengeResponse
        &&& parse_signed_timestamp(body) matches Some((signed, _))
        &&& signed.0 == self.timestamp()
    }

    // Step 1 of Handshake
    /// The packet that asks the server for a challenge.
    pub fn write_challenge_request(&self) -> (r: BitWriter)
        ensures
            r.wf(),
            r.reserved() == 0,
            r@ == challenge_request_bits(self.timestamp()),
    {
        let mut writer = BitWriter::new();
        StandardHeader::new(PacketType::ClientChallengeRequest, 0, 0, 0, 0).ser(&mut writer);
        self.pre_connection_timestamp.ser(&mut writer);
        assert(writer@ =~= challenge_request_bits(self.timestamp()));
        writer
    }

    // Step 2 of Handshake
    /// Takes in the body of a challenge response, and says whether it
    /// moved the handshake on.
    pub fn recv_challenge_response(&mut self, reader: &mut BitReader) -> (r: bool)
        requires
            old(self).wf(),
            old(reader).wf(),
        ensures
            final(self).wf(),
            final(reader).wf(),
            r == old(self).accepts_challenge(old(reader)@),
            final(self).timestamp() == old(self).timestamp(),
            final(self).auth() == old(self).auth(),
            final(self).timer() == old(self).timer(),
            final(self).state() == if r {
                HandshakeState::AwaitingConnectResponse
            } else {
                old(self).state()
            },
            final(self).digest() == if r {
                Some(parse_signed_timestamp(old(reader)@).unwrap().0.1)
            } else {
                old(self).digest()
            },
            r ==> final(reader)@ == parse_signed_timestamp(old(reader)@).unwrap().1,
    {
        if self.connection_state != HandshakeState::AwaitingChallengeResponse {
            return false;
        }
        match read_signed_timestamp(reader) {
            Ok((payload_timestamp, digest)) => {
                if self.pre_connection_timestamp == payload_timestamp {
                    self.pre_connection_digest = Some(digest);
                    self.connection_state = HandshakeState::AwaitingConnectResponse;
                    true
                } else {
                    false
                }
            },
            Err(_) => false,
        }
    }

    // Step 3 of Handshake
    /// The packet that asks the server to connect.
    pub fn write_connect_request(&self) -> (r: BitWriter)
        requires
            self.wf(),
            self.digest() is Some,
        ensures
            r.wf(),
            r.reserved() == 0,
            r@ == connect_request_bits(self.timestamp(), self.digest().unwrap(), self.auth()),
    {
        let mut writer = BitWriter::new();
        StandardHeader::new(PacketType::ClientConnectRequest, 0, 0, 0, 0).ser(&mut writer);

        // write timestamp & digest into payload
        self.write_signed_timestamp(&mut writer);
        let ghost head = writer@;

        // write auth message if there is one
        match &self.auth_message {
            Some(auth_message) => {
                // write that we have auth
                1u8.ser(&mut writer);
                auth_message.write(&mut writer);
                assert(writer@ =~= head + auth_bits(self.auth()));
            },
            None => {
                // write that we do not have auth
                0u8.ser(&mut writer);
                assert(writer@ =~= head + auth_bits(self.auth()));
            },
        }
        writer
    }

    // Step 4 of Handshake
    /// Takes in a connect response: the client is connected.
    pub fn recv_connect_response(&mut self)
        requires
            old(self).wf(),
        ensures
            final(self).wf(),
            final(self).state() == HandshakeState::Connected,
            final(self).timestamp() == old(self).timestamp(),
            final(self).digest() == old(self).digest(),
            final(self).auth() == old(self).auth(),
            final(self).timer() == old(self).timer(),
    {
        self.connection_state = HandshakeState::Connected;
    }

    /// The packet that tells the server that the client leaves.
    pub fn write_disconnect(&self) -> (r: BitWriter)
        requires
            self.wf(),
            self.digest() is Some,
        ensures
            r.wf(),
            r.reserved() == 0,
            r@ == disconnect_bits(self.timestamp(), self.digest().unwrap()),
    {
        let mut writer = BitWriter::new();
        StandardHeader::new(PacketType::Disconnect, 0, 0, 0, 0).ser(&mut writer);
        self.write_signed_timestamp(&mut writer);
        writer
    }

    // Appends the timestamp and the server's digest of it.
    fn write_signed_timestamp(&self, writer: &mut BitWriter)
        requires
            self.wf(),
            self.digest() is Some,
            old(writer).wf(),
            old(writer).room() >= SIGNED_TIMESTAMP_BITS,
        ensures
            final(writer).wf(),
            final(writer).reserved() == old(writer).reserved(),
            final(writer)@ == old(writer)@ + signed_timestamp_bits(
                self.timestamp(),
                self.digest().unwrap(),
            ),
    {
        let ghost before = writer@;
        self.pre_connection_timestamp.ser(writer);
        match &self.pre_connection_digest {
            Some(digest) => {
                write_bytes(writer, digest);
            },
            None => {},
        }
        assert(writer@ =~= before + signed_timestamp_bits(
            self.timestamp(),
            self.digest().unwrap(),
        ));
    }
}

} // verus!
