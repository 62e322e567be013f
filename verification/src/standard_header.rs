//! The fixed header that every packet begins with.

use crate::bits::{
    BitReader, BitWriter, SerdeErr, bits_of_value, lemma_bits_of_value_of, lemma_value_of_bits,
    starts_with, value_of,
};
use crate::wire::Serde;
use vstd::arithmetic::power2::lemma2_to64;
use vstd::prelude::*;

verus! {

/// What a packet is for.
#[derive(Clone, Copy, Debug, PartialEq, Eq, Structural)]
pub enum PacketType {
    ClientChallengeRequest,
    ServerChallengeResponse,
    ClientConnectRequest,
    ServerConnectResponse,
    Data,
    Heartbeat,
    Ping,
    Pong,
    Disconnect,
}

/// How many packet types there are.
pub const PACKET_TYPES: u8 = 9;

/// How many bits a header takes.
pub const HEADER_BITS: usize = 64;

impl PacketType {
    /// The number that stands for the type on the wire.
    pub open spec fn code(self) -> u8 {
        match self {
            PacketType::ClientChallengeRequest => 0,
            PacketType::ServerChallengeResponse => 1,
            PacketType::ClientConnectRequest => 2,
            PacketType::ServerConnectResponse => 3,
            PacketType::Data => 4,
            PacketType::Heartbeat => 5,
            PacketType::Ping => 6,
            PacketType::Pong => 7,
            PacketType::Disconnect => 8,
        }
    }

    /// The type that a number under `PACKET_TYPES` stands for.
    pub open spec fn of_code(code: u8) -> PacketType {
        if code == 0 {
            PacketType::ClientChallengeRequest
        } else if code == 1 {
            PacketType::ServerChallengeResponse
        } else if code == 2 {
            PacketType::ClientConnectRequest
        } else if code == 3 {
            PacketType::ServerConnectResponse
        } else if code == 4 {
            PacketType::Data
        } else if code == 5 {
            PacketType::Heartbeat
        } else if code == 6 {
            PacketType::Ping
        } else if code == 7 {
            PacketType::Pong
        } else {
            PacketType::Disconnect
        }
    }

    /// The number that stands for the type on the wire.
    pub fn to_code(self) -> (r: u8)
        ensures
            r == self.code(),
            r < PACKET_TYPES,
            PacketType::of_code(r) == self,
    {
        match self {
            PacketType::ClientChallengeRequest => 0,
            PacketType::ServerChallengeResponse => 1,
            PacketType::ClientConnectRequest => 2,
            PacketType::ServerConnectResponse => 3,
            PacketType::Data => 4,
            PacketType::Heartbeat => 5,
            PacketType::Ping => 6,
            PacketType::Pong => 7,
            PacketType::Disconnect => 8,
        }
    }

    /// The type that a number stands for, if it stands for one.
    pub fn from_code(code: u8) -> (r: Option<PacketType>)
        ensures
            r == if code < PACKET_TYPES {
                Some(PacketType::of_code(code))
            } else {
                None
            },
            r matches Some(packet_type) ==> packet_type.code() == code,
    {
        match code {
            0 => Some(PacketType::ClientChallengeRequest),
            1 => Some(PacketType::ServerChallengeResponse),
            2 => Some(PacketType::ClientConnectRequest),
            3 => Some(PacketType::ServerConnectResponse),
            4 => Some(PacketType::Data),
            5 => Some(PacketType::Heartbeat),
            6 => Some(PacketType::Ping),
            7 => Some(PacketType::Pong),
            8 => Some(PacketType::Disconnect),
            _ => None,
        }
    }
}

/// The header of a packet: its type, the sender's number for it, and what
/// the sender has received of the other side's packets.
#[derive(Clone, Copy, Debug, PartialEq, Eq, Structural)]
pub struct StandardHeader {
    pub packet_type: PacketType,
    /// The sender's number for this packet.
    pub packet_index: u16,
    /// The newest packet of the other side that the sender has received.
    pub last_remote_index: u16,
    /// Bit `k` says that the sender has received the packet `k + 1` before
    /// `last_remote_index`.
    pub ack_bitfield: u16,
    pub extra: u8,
}

/// The header that the coming bits stand for, and the bits behind it.
pub open spec fn parse_header(bits: Seq<bool>) -> Option<(StandardHeader, Seq<bool>)> {
    if bits.len() < HEADER_BITS || value_of(bits.subrange(0, 8)) >= PACKET_TYPES {
        None
    } else {
        Some(
            (
                StandardHeader {
                    packet_type: PacketType::of_code(value_of(bits.subrange(0, 8)) as u8),
                    packet_index: value_of(bits.subrange(8, 24)) as u16,
                    last_remote_index: value_of(bits.subrange(24, 40)) as u16,
                    ack_bitfield: value_of(bits.subrange(40, 56)) as u16,
                    extra: value_of(bits.subrange(56, 64)) as u8,
                },
                bits.skip(HEADER_BITS as int),
            ),
        )
    }
}

impl StandardHeader {
    pub fn new(
        packet_type: PacketType,
        packet_index: u16,
        last_remote_index: u16,
        ack_bitfield: u16,
        extra: u8,
    ) -> (r: StandardHeader)
        ensures
            r == (StandardHeader {
                packet_type,
                packet_index,
                last_remote_index,
                ack_bitfield,
                extra,
            }),
    {
        StandardHeader { packet_type, packet_index, last_remote_index, ack_bitfield, extra }
    }

    /// What the packet is for.
    pub fn packet_type(&self) -> (r: PacketType)
        ensures
            r == self.packet_type,
    {
        self.packet_type
    }

    /// A header that was written is the header that is read, and what stood
    /// behind it is what is left.
    pub proof fn lemma_round_trip(self, rest: Seq<bool>)
        ensures
            self.encoding().len() == HEADER_BITS,
            parse_header(self.encoding() + rest) == Some((self, rest)),
    {
        let stream = self.encoding() + rest;
        lemma2_to64();
        assert(stream.subrange(0, 8) =~= bits_of_value(self.packet_type.code() as nat, 8));
        assert(stream.subrange(8, 24) =~= bits_of_value(self.packet_index as nat, 16));
        assert(stream.subrange(24, 40) =~= bits_of_value(self.last_remote_index as nat, 16));
        assert(stream.subrange(40, 56) =~= bits_of_value(self.ack_bitfield as nat, 16));
        assert(stream.subrange(56, 64) =~= bits_of_value(self.extra as nat, 8));
        lemma_value_of_bits(self.packet_type.code() as nat, 8);
        lemma_value_of_bits(self.packet_index as nat, 16);
        lemma_value_of_bits(self.last_remote_index as nat, 16);
        lemma_value_of_bits(self.ack_bitfield as nat, 16);
        lemma_value_of_bits(self.extra as nat, 8);
        assert(stream.skip(HEADER_BITS as int) =~= rest);
    }

    /// Bits that are read as a header are the bits that the header is
    /// written as: no two bit patterns stand for one header.
    pub proof fn lemma_parse_is_exact(bits: Seq<bool>)
        ensures
            match parse_header(bits) {
                Some((header, rest)) => bits == header.encoding() + rest,
                None => true,
            },
    {
        if let Some((header, rest)) = parse_header(bits) {
            lemma2_to64();
            lemma_bits_of_value_of(bits.subrange(0, 8));
            lemma_bits_of_value_of(bits.subrange(8, 24));
            lemma_bits_of_value_of(bits.subrange(24, 40));
            lemma_bits_of_value_of(bits.subrange(40, 56));
            lemma_bits_of_value_of(bits.subrange(56, 64));
            assert(bits =~= bits.subrange(0, 8) + bits.subrange(8, 24) + bits.subrange(24, 40)
                + bits.subrange(40, 56) + bits.subrange(56, 64) + rest);
        }
    }
}

/// The bits that stand for a header: its fields in their order, each most
/// significant bit first.
pub open spec fn header_bits(header: StandardHeader) -> Seq<bool> {
    bits_of_value(header.packet_type.code() as nat, 8) + bits_of_value(
        header.packet_index as nat,
        16,
    ) + bits_of_value(header.last_remote_index as nat, 16) + bits_of_value(
        header.ack_bitfield as nat,
        16,
    ) + bits_of_value(header.extra as nat, 8)
}

impl Serde for StandardHeader {
    open spec fn encoding(&self) -> Seq<bool> {
        header_bits(*self)
    }

    fn ser(&self, writer: &mut BitWriter) {
        self.packet_type.to_code().ser(writer);
        self.packet_index.ser(writer);
        self.last_remote_index.ser(writer);
        self.ack_bitfield.ser(writer);
        self.extra.ser(writer);
    }

    fn de(reader: &mut BitReader) -> (r: Result<StandardHeader, SerdeErr>)
        ensures
            match r {
                Ok(header) => parse_header(old(reader)@) == Some((header, final(reader)@)),
                Err(_) => parse_header(old(reader)@) is None,
            },
    {
        let ghost before = reader@;
        proof {
            StandardHeader::lemma_parse_is_exact(before);
            assert forall|header: StandardHeader|
                starts_with(before, #[trigger] header.encoding()) implies parse_header(before)
                == Some((header, before.skip(HEADER_BITS as int))) by {
                let rest = before.skip(HEADER_BITS as int);
                assert(before =~= before.take(HEADER_BITS as int) + rest);
                header.lemma_round_trip(rest);
            }
        }
        if !reader.has_bits(HEADER_BITS) {
            return Err(SerdeErr);
        }
        let code = reader.read_bits(8)?;
        let packet_index = reader.read_bits(16)?;
        let last_remote_index = reader.read_bits(16)?;
        let ack_bitfield = reader.read_bits(16)?;
        let extra = reader.read_bits(8)?;
        proof {
            lemma2_to64();
            assert(before.take(8) =~= before.subrange(0, 8));
            assert(before.skip(8).take(16) =~= before.subrange(8, 24));
            assert(before.skip(8).skip(16).take(16) =~= before.subrange(24, 40));
            assert(before.skip(8).skip(16).skip(16).take(16) =~= before.subrange(40, 56));
            assert(before.skip(8).skip(16).skip(16).skip(16).take(8) =~= before.subrange(56, 64));
            assert(reader@ =~= before.skip(HEADER_BITS as int));
            lemma_bits_of_value_of(before.subrange(0, 8));
            lemma_bits_of_value_of(before.subrange(8, 24));
            lemma_bits_of_value_of(before.subrange(24, 40));
            lemma_bits_of_value_of(before.subrange(40, 56));
            lemma_bits_of_value_of(before.subrange(56, 64));
        }
        match PacketType::from_code(code as u8) {
            Some(packet_type) => Ok(
                StandardHeader {
                    packet_type,
                    packet_index: packet_index as u16,
                    last_remote_index: last_remote_index as u16,
                    ack_bitfield: ack_bitfield as u16,
                    extra: extra as u8,
                },
            ),
            None => Err(SerdeErr),
        }
    }

    proof fn lemma_unambiguous(
        a: StandardHeader,
        b: StandardHeader,
        after_a: Seq<bool>,
        after_b: Seq<bool>,
    ) {
        a.lemma_round_trip(after_a);
        b.lemma_round_trip(after_b);
    }
}

} // verus!
