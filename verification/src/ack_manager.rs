//! Numbering the packets that go out, remembering which of the other
//! side's packets came in, and telling from the other side's headers which
//! of the own packets arrived.

use crate::standard_header::{PacketType, StandardHeader};
use crate::tick::{
    later_than, lemma_steps_chain, lemma_steps_round_trip, sequence_greater_than, steps_forward,
};
use vstd::prelude::*;

verus! {

/// The number that a sender gives a packet. It wraps around after 65535.
pub type PacketIndex = u16;

/// How many packets before the newest one a header reports on.
pub const REDUNDANT_PACKET_ACKS_SIZE: u16 = 16;

/// What became of a packet that was sent.
#[derive(Clone, Copy, Debug, PartialEq, Eq, Structural)]
pub enum PacketNotice {
    /// The other side has received the packet.
    Delivered(PacketIndex),
    /// The other side's reports have moved past the packet without
    /// naming it.
    Dropped(PacketIndex),
}

/// Whether bit `k` of a field of sixteen bits is set.
pub open spec fn has_bit(field: u16, k: u16) -> bool {
    (field >> k) & 1 == 1
}

/// Whether a report names the packet `index` as received: it is the
/// newest one, `newest`, or one of the sixteen before it whose bit is set.
/// Bit `k` stands for the packet `k + 1` before the newest.
pub open spec fn reported(newest: PacketIndex, field: u16, index: PacketIndex) -> bool {
    let age = steps_forward(index, newest);
    age == 0 || (1 <= age <= REDUNDANT_PACKET_ACKS_SIZE && has_bit(field, (age - 1) as u16))
}

/// What a header of the other side says of the own packet `index`: that it
/// arrived, that it is lost, or nothing yet.
pub open spec fn verdict(header: StandardHeader, index: PacketIndex) -> Option<PacketNotice> {
    let age = steps_forward(index, header.last_remote_index);
    if reported(header.last_remote_index, header.ack_bitfield, index) {
        Some(PacketNotice::Delivered(index))
    } else if REDUNDANT_PACKET_ACKS_SIZE < age < 0x8000 {
        Some(PacketNotice::Dropped(index))
    } else {
        None
    }
}

/// The notices that a header gives rise to, in the order in which the
/// packets were sent.
pub open spec fn notices_for(sent: Seq<PacketIndex>, header: StandardHeader) -> Seq<PacketNotice>
    decreases sent.len(),
{
    if sent.len() == 0 {
        Seq::empty()
    } else {
        match verdict(header, sent.last()) {
            Some(notice) => notices_for(sent.drop_last(), header).push(notice),
            None => notices_for(sent.drop_last(), header),
        }
    }
}

/// The packets of which a header says nothing yet, in the order in which
/// they were sent.
pub open spec fn still_waiting(sent: Seq<PacketIndex>, header: StandardHeader) -> Seq<PacketIndex>
    decreases sent.len(),
{
    if sent.len() == 0 {
        Seq::empty()
    } else {
        match verdict(header, sent.last()) {
            Some(_) => still_waiting(sent.drop_last(), header),
            None => still_waiting(sent.drop_last(), header).push(sent.last()),
        }
    }
}

/// The field after the newest packet has moved on by `shift`: every bit
/// moves up by as much, and the packet that was the newest gets its bit.
fn advance(field: u16, shift: u16) -> (r: u16)
    requires
        1 <= shift <= REDUNDANT_PACKET_ACKS_SIZE,
    ensures
        forall|k: u16|
            k < 16 ==> #[trigger] has_bit(r, k) == (k == shift - 1 || (k >= shift && has_bit(
                field,
                (k - shift) as u16,
            ))),
{
    let wide: u32 = ((field as u32) << (shift as u32)) | (1u32 << ((shift - 1) as u32));
    let r: u16 = (wide & 0xffff) as u16;
    assert forall|k: u16| k < 16 implies #[trigger] has_bit(r, k) == (k == shift - 1 || (k
        >= shift && has_bit(field, (k - shift) as u16))) by {
        assert(((r >> k) & 1 == 1) == (k == shift - 1 || (k >= shift && (field >> ((k
            - shift) as u16)) & 1 == 1))) by (bit_vector)
            requires
                k < 16,
                1 <= shift <= 16,
                r == ((((field as u32) << (shift as u32)) | (1u32 << ((shift - 1) as u32)))
                    & 0xffff) as u16,
        ;
    }
    r
}

/// The field with the bit `k` set as well.
fn with_bit(field: u16, k: u16) -> (r: u16)
    requires
        k < 16,
    ensures
        forall|j: u16| j < 16 ==> #[trigger] has_bit(r, j) == (j == k || has_bit(field, j)),
{
    let r: u16 = field | (1u16 << k);
    assert forall|j: u16| j < 16 implies #[trigger] has_bit(r, j) == (j == k || has_bit(
        field,
        j,
    )) by {
        assert(((r >> j) & 1 == 1) == (j == k || (field >> j) & 1 == 1)) by (bit_vector)
            requires
                j < 16,
                k < 16,
                r == field | (1u16 << k),
        ;
    }
    r
}

/// Whether bit `k` of the field is set.
fn test_bit(field: u16, k: u16) -> (r: bool)
    requires
        k < 16,
    ensures
        r == has_bit(field, k),
{
    (field >> k) & 1 == 1
}

/// No bit of the empty field is set.
proof fn lemma_empty_field(k: u16)
    requires
        k < 16,
    ensures
        !has_bit(0, k),
{
    assert((0u16 >> k) & 1 != 1) by (bit_vector)
        requires
            k < 16,
    ;
}

/// With the first packet that came in, that packet alone is reported.
proof fn lemma_reported_first(arrived: PacketIndex, index: PacketIndex)
    ensures
        reported(arrived, 0, index) == (index == arrived),
{
    lemma_steps_round_trip(index, arrived);
    let age = steps_forward(index, arrived);
    if 1 <= age <= 16 {
        lemma_empty_field((age - 1) as u16);
    }
}

/// After a newer packet came in, what is reported is that packet and
/// what was reported before, as far as it lies within sixteen of it.
#[verifier::spinoff_prover]
proof fn lemma_reported_advance(
    last: PacketIndex,
    field: u16,
    arrived: PacketIndex,
    moved: u16,
    index: PacketIndex,
)
    requires
        later_than(arrived, last),
        steps_forward(last, arrived) > REDUNDANT_PACKET_ACKS_SIZE ==> moved == 0,
        steps_forward(last, arrived) <= REDUNDANT_PACKET_ACKS_SIZE ==> forall|k: u16|
            k < 16 ==> #[trigger] has_bit(moved, k) == (k == steps_forward(last, arrived) - 1 || (k
                >= steps_forward(last, arrived) && has_bit(
                field,
                (k - steps_forward(last, arrived)) as u16,
            ))),
    ensures
        reported(arrived, moved, index) == ((index == arrived || reported(last, field, index))
            && steps_forward(index, arrived) <= REDUNDANT_PACKET_ACKS_SIZE),
{
    let shift = steps_forward(last, arrived);
    let age = steps_forward(index, arrived);
    let was = steps_forward(index, last);
    lemma_steps_round_trip(index, arrived);
    lemma_steps_round_trip(index, last);
    lemma_steps_chain(index, last, arrived);
    if 1 <= age <= 16 {
        let k = (age - 1) as u16;
        if shift > 16 {
            lemma_empty_field(k);
        } else {
            assert(has_bit(moved, k) == (k == shift - 1 || (k >= shift && has_bit(
                field,
                (k - shift) as u16,
            ))));
        }
    }
}

/// After a packet came in that is not newer than the newest, what is
/// reported is what was reported before and, where it lies within sixteen
/// of the newest, that packet.
#[verifier::spinoff_prover]
proof fn lemma_reported_late(
    last: PacketIndex,
    field: u16,
    arrived: PacketIndex,
    marked: u16,
    index: PacketIndex,
)
    requires
        !later_than(arrived, last),
        1 <= steps_forward(arrived, last) <= REDUNDANT_PACKET_ACKS_SIZE ==> forall|j: u16|
            j < 16 ==> #[trigger] has_bit(marked, j) == (j == steps_forward(arrived, last) - 1
                || has_bit(field, j)),
        !(1 <= steps_forward(arrived, last) <= REDUNDANT_PACKET_ACKS_SIZE) ==> marked == field,
    ensures
        reported(last, marked, index) == ((index == arrived || reported(last, field, index))
            && steps_forward(index, last) <= REDUNDANT_PACKET_ACKS_SIZE),
{
    let age = steps_forward(index, last);
    lemma_steps_round_trip(index, last);
    lemma_steps_round_trip(arrived, last);
    if 1 <= age <= 16 && 1 <= steps_forward(arrived, last) <= 16 {
        let j = (age - 1) as u16;
        assert(has_bit(marked, j) == (j == steps_forward(arrived, last) - 1 || has_bit(
            field,
            j,
        )));
    }
}

/// Keeps the numbers of the packets of one connection.
pub struct AckManager {
    // the number of the next packet to go out
    next_packet_index: PacketIndex,
    // the newest packet of the other side that came in
    last_recv_packet_index: PacketIndex,
    // which of the sixteen packets before that one came in
    received_field: u16,
    heard_any: bool,
    // the own packets of which the other side has said nothing yet
    sent_packets: Vec<PacketIndex>,
}

impl AckManager {
    /// The number of the next packet to go out.
    pub closed spec fn next_index(&self) -> PacketIndex {
        self.next_packet_index
    }

    /// The newest packet of the other side that came in; before any came
    /// in, the number before the first.
    pub closed spec fn last_received(&self) -> PacketIndex {
        self.last_recv_packet_index
    }

    /// The bits for the sixteen packets before the newest that came in.
    pub closed spec fn received_field(&self) -> u16 {
        self.received_field
    }

    /// Whether any packet of the other side came in.
    pub closed spec fn heard_any(&self) -> bool {
        self.heard_any
    }

    /// The own packets of which the other side has said nothing yet, in the
    /// order in which they were sent.
    pub closed spec fn sent(&self) -> Seq<PacketIndex> {
        self.sent_packets@
    }

    /// Whether the packet `index` of the other side is remembered as
    /// received.
    pub open spec fn saw(&self, index: PacketIndex) -> bool {
        self.heard_any() && reported(self.last_received(), self.received_field(), index)
    }

    pub fn new() -> (r: AckManager)
        ensures
            r.next_index() == 0,
            r.last_received() == u16::MAX,
            r.received_field() == 0,
            !r.heard_any(),
            r.sent() == Seq::<PacketIndex>::empty(),
    {
        AckManager {
            next_packet_index: 0,
            last_recv_packet_index: u16::MAX,
            received_field: 0,
            heard_any: false,
            sent_packets: Vec::new(),
        }
    }

    /// The number of the next packet to go out.
    pub fn next_sender_packet_index(&self) -> (r: PacketIndex)
        ensures
            r == self.next_index(),
    {
        self.next_packet_index
    }

    /// Takes note of a header that came in. The packet that carried it is
    /// remembered as received, if it is not more than sixteen behind the
    /// newest. The own packets that the header reports on leave the list of
    /// those waiting, and a notice is given for each.
    pub fn process_incoming_header(&mut self, header: &StandardHeader) -> (r: Vec<PacketNotice>)
        ensures
            r@ == notices_for(old(self).sent(), *header),
            final(self).sent() == still_waiting(old(self).sent(), *header),
            final(self).next_index() == old(self).next_index(),
            final(self).heard_any(),
            final(self).last_received() == if !old(self).heard_any() || later_than(
                header.packet_index,
                old(self).last_received(),
            ) {
                header.packet_index
            } else {
                old(self).last_received()
            },
            forall|index: PacketIndex|
                #[trigger] final(self).saw(index) == ((index == header.packet_index || old(
                    self,
                ).saw(index)) && steps_forward(index, final(self).last_received())
                    <= REDUNDANT_PACKET_ACKS_SIZE),
    {
        let mut notices: Vec<PacketNotice> = Vec::new();
        let mut waiting: Vec<PacketIndex> = Vec::new();
        let ghost sent = self.sent_packets@;
        let mut i: usize = 0;
        assert(sent.take(0) =~= Seq::<PacketIndex>::empty());
        while i < self.sent_packets.len()
            invariant
                i <= sent.len(),
                self.sent_packets@ == sent,
                *self == *old(self),
                notices@ == notices_for(sent.take(i as int), *header),
                waiting@ == still_waiting(sent.take(i as int), *header),
            decreases sent.len() - i,
        {
            let index: PacketIndex = self.sent_packets[i];
            let age: u16 = header.last_remote_index.wrapping_sub(index);
            assert(sent.take(i + 1).drop_last() =~= sent.take(i as int));
            assert(sent.take(i + 1).last() == index);
            if age == 0 || (age <= REDUNDANT_PACKET_ACKS_SIZE && test_bit(
                header.ack_bitfield,
                age - 1,
            )) {
                notices.push(PacketNotice::Delivered(index));
            } else if age > REDUNDANT_PACKET_ACKS_SIZE && age < 0x8000 {
                notices.push(PacketNotice::Dropped(index));
            } else {
                waiting.push(index);
            }
            i += 1;
        }
        assert(sent.take(i as int) =~= sent);
        self.sent_packets = waiting;

        let arrived: PacketIndex = header.packet_index;
        let ghost before = *self;
        if !self.heard_any {
            self.heard_any = true;
            self.last_recv_packet_index = arrived;
            self.received_field = 0;
            assert forall|index: PacketIndex| #[trigger]
                self.saw(index) == ((index == arrived || before.saw(index)) && steps_forward(
                    index,
                    arrived,
                ) <= REDUNDANT_PACKET_ACKS_SIZE) by {
                lemma_reported_first(arrived, index);
            }
        } else if sequence_greater_than(arrived, self.last_recv_packet_index) {
            let shift: u16 = arrived.wrapping_sub(self.last_recv_packet_index);
            if shift > REDUNDANT_PACKET_ACKS_SIZE {
                self.received_field = 0;
            } else {
                self.received_field = advance(self.received_field, shift);
            }
            self.last_recv_packet_index = arrived;
            assert forall|index: PacketIndex| #[trigger]
                self.saw(index) == ((index == arrived || before.saw(index)) && steps_forward(
                    index,
                    arrived,
                ) <= REDUNDANT_PACKET_ACKS_SIZE) by {
                lemma_reported_advance(
                    before.last_recv_packet_index,
                    before.received_field,
                    arrived,
                    self.received_field,
                    index,
                );
            }
        } else {
            let age: u16 = self.last_recv_packet_index.wrapping_sub(arrived);
            if 1 <= age && age <= REDUNDANT_PACKET_ACKS_SIZE {
                self.received_field = with_bit(self.received_field, age - 1);
            }
            assert forall|index: PacketIndex| #[trigger]
                self.saw(index) == ((index == arrived || before.saw(index)) && steps_forward(
                    index,
                    before.last_recv_packet_index,
                ) <= REDUNDANT_PACKET_ACKS_SIZE) by {
                lemma_reported_late(
                    before.last_recv_packet_index,
                    before.received_field,
                    arrived,
                    self.received_field,
                    index,
                );
            }
        }
        notices
    }

    /// The header for the next packet to go out: it carries the packet's
    /// number and reports what came in of the other side's packets. The
    /// packet joins those that wait for the other side's word.
    pub fn next_outgoing_packet_header(&mut self, packet_type: PacketType) -> (r: StandardHeader)
        ensures
            r == (StandardHeader {
                packet_type,
                packet_index: old(self).next_index(),
                last_remote_index: old(self).last_received(),
                ack_bitfield: old(self).received_field(),
                extra: 0,
            }),
            old(self).heard_any() ==> forall|index: PacketIndex|
                reported(r.last_remote_index, r.ack_bitfield, index) == old(self).saw(index),
            final(self).next_index() == (old(self).next_index() + 1) % 0x1_0000,
            final(self).sent() == old(self).sent().push(old(self).next_index()),
            final(self).last_received() == old(self).last_received(),
            final(self).received_field() == old(self).received_field(),
            final(self).heard_any() == old(self).heard_any(),
    {
        let index: PacketIndex = self.next_packet_index;
        let header = StandardHeader::new(
            packet_type,
            index,
            self.last_recv_packet_index,
            self.received_field,
            0,
        );
        self.sent_packets.push(index);
        self.next_packet_index = index.wrapping_add(1);
        header
    }
}

} // verus!
