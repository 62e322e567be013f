//! The channels of a connection, and the record of which packet carries
//! which of their messages.

use crate::ack_manager::{PacketIndex, PacketNotice};
use crate::bits::{
    BitReader, BitWriter, SerdeErr, bits_of_value, lemma_bits_of_value_of, lemma_value_of_bits,
    value_of,
};
use crate::channel_tick_buffer::{
    ChannelTickBuffer, TickBufferSettings, fit_count, groups_view, lemma_fit_count_fits,
    messages_view, parse_messages, staged_round,
};
use crate::framing::{
    Staged, groups_shortened, in_flight, lemma_message_list_round_trip, lengths_fit,
    message_list_bits, parse_message_list,
};
use crate::incoming::{Arrivals, Inbox, collected, receive_groups};
use crate::message::{Message, MessageId, ShortMessageId};
use crate::outgoing::{History, after_delivery, after_push};
use crate::tick::Tick;
use crate::timer::{Millis, Timer};
use crate::wire::Serde;
use vstd::arithmetic::power2::lemma2_to64;
use vstd::prelude::*;

verus! {

/// The number that stands for a channel on the wire.
pub type ChannelIndex = u8;

/// How many channels a connection can have.
pub const MAX_CHANNELS: usize = 256;

/// How many bits stand in front of a channel's messages: one that says
/// that a channel follows, and the channel's number.
pub const CHANNEL_PREFIX_BITS: usize = 9;

/// The messages that a packet carries, each as its channel, tick and id.
pub type Carried = Seq<(ChannelIndex, Tick, MessageId)>;

/// The packets on the way, oldest first, each with what it carries.
pub type Flights = Seq<(PacketIndex, Carried)>;

/// The staged groups of every channel.
pub type Queues = Seq<Seq<(Tick, Staged)>>;

/// The parts of a packet: for each channel that has one, in the order of
/// the channels, the groups of its messages.
pub type Sections = Seq<(ChannelIndex, Seq<(Tick, Arrivals)>)>;

/// How many groups a channel writes into a packet that has `room` bits
/// left; nothing where the channel has nothing staged or the room does not
/// take a channel's number and an empty list at the least.
pub open spec fn section_count(staged: Seq<(Tick, Staged)>, host_tick: Tick, room: int) -> Option<
    int,
> {
    if staged.len() > 0 && room >= CHANNEL_PREFIX_BITS + 1 {
        Some(fit_count(staged, host_tick, room - CHANNEL_PREFIX_BITS))
    } else {
        None
    }
}

/// The bits that the channel `index` writes into a packet that has `room`
/// bits left: a one bit, the channel's number and the list of its groups.
pub open spec fn section_bits(
    index: int,
    staged: Seq<(Tick, Staged)>,
    host_tick: Tick,
    room: int,
) -> Seq<bool> {
    match section_count(staged, host_tick, room) {
        Some(count) => seq![true] + bits_of_value(index as nat, 8) + message_list_bits(
            host_tick,
            staged.take(count),
        ),
        None => Seq::empty(),
    }
}

/// The messages of a channel, marked with the channel's number.
pub open spec fn marked(index: ChannelIndex, pairs: Seq<(Tick, MessageId)>) -> Carried {
    Seq::new(pairs.len(), |k: int| (index, pairs[k].0, pairs[k].1))
}

/// The messages that the channel `index` writes into a packet that has
/// `room` bits left.
pub open spec fn section_carried(
    index: int,
    staged: Seq<(Tick, Staged)>,
    host_tick: Tick,
    room: int,
) -> Carried {
    match section_count(staged, host_tick, room) {
        Some(count) => marked(index as u8, in_flight(staged.take(count))),
        None => Seq::empty(),
    }
}

/// The queue of a channel after it has written into a packet that had
/// `room` bits left.
pub open spec fn queue_after(staged: Seq<(Tick, Staged)>, host_tick: Tick, room: int) -> Seq<
    (Tick, Staged),
> {
    match section_count(staged, host_tick, room) {
        Some(count) => staged.skip(count),
        None => staged,
    }
}

/// The bits that the first `upto` channels write, one after the other,
/// into a packet that has `room` bits for them.
pub open spec fn sections_bits(queues: Queues, host_tick: Tick, room: int, upto: int) -> Seq<bool>
    decreases upto,
{
    if upto <= 0 {
        Seq::empty()
    } else {
        let before = sections_bits(queues, host_tick, room, upto - 1);
        before + section_bits(upto - 1, queues[upto - 1], host_tick, room - before.len())
    }
}

/// The room that is left for the channel `index` once the channels in
/// front of it have written.
pub open spec fn room_at(queues: Queues, host_tick: Tick, room: int, index: int) -> int {
    room - sections_bits(queues, host_tick, room, index).len()
}

/// The messages that the first `upto` channels write into a packet that
/// has `room` bits for them.
pub open spec fn sections_carried(queues: Queues, host_tick: Tick, room: int, upto: int) -> Carried
    decreases upto,
{
    if upto <= 0 {
        Seq::empty()
    } else {
        sections_carried(queues, host_tick, room, upto - 1) + section_carried(
            upto - 1,
            queues[upto - 1],
            host_tick,
            room_at(queues, host_tick, room, upto - 1),
        )
    }
}

/// The queues of all channels after they have written, one after the
/// other, into a packet that had `room` bits for them.
pub open spec fn queues_after(queues: Queues, host_tick: Tick, room: int) -> Queues {
    Seq::new(
        queues.len(),
        |i: int| queue_after(queues[i], host_tick, room_at(queues, host_tick, room, i)),
    )
}

/// The parts that the coming bits stand for, and the bits behind the zero
/// bit that ends them. The channels come in rising order, none below
/// `from` and none twice, and there are `channels` of them.
pub open spec fn parse_sections(
    bits: Seq<bool>,
    baseline: Tick,
    from: int,
    channels: int,
) -> Option<(Sections, Seq<bool>)>
    decreases channels - from,
{
    if bits.len() == 0 {
        None
    } else if !bits[0] {
        Some((Seq::empty(), bits.skip(1)))
    } else if bits.len() < CHANNEL_PREFIX_BITS {
        None
    } else {
        let index = value_of(bits.subrange(1, 9)) as int;
        if index < from || index >= channels {
            None
        } else {
            match parse_message_list(bits.skip(CHANNEL_PREFIX_BITS as int), baseline) {
                Some((groups, rest)) => match parse_sections(rest, baseline, index + 1, channels) {
                    Some((others, behind)) => Some(
                        (seq![(index as u8, groups)] + others, behind),
                    ),
                    None => None,
                },
                None => None,
            }
        }
    }
}

/// The parts that the first `upto` channels write into a packet that has
/// `room` bits for them, as the receiver sees them.
pub open spec fn sections_written(queues: Queues, host_tick: Tick, room: int, upto: int) -> Sections
    decreases upto,
{
    if upto <= 0 {
        Seq::empty()
    } else {
        let before = sections_written(queues, host_tick, room, upto - 1);
        match section_count(
            queues[upto - 1],
            host_tick,
            room_at(queues, host_tick, room, upto - 1),
        ) {
            Some(count) => before.push(
                ((upto - 1) as u8, groups_shortened(queues[upto - 1].take(count))),
            ),
            None => before,
        }
    }
}

/// Parts that can be read with channels from `from` on can be read with
/// channels from any lower number on.
pub proof fn lemma_parse_sections_from(
    bits: Seq<bool>,
    baseline: Tick,
    lower: int,
    from: int,
    channels: int,
)
    requires
        lower <= from,
        parse_sections(bits, baseline, from, channels) is Some,
    ensures
        parse_sections(bits, baseline, lower, channels) == parse_sections(
            bits,
            baseline,
            from,
            channels,
        ),
{
}

/// No payload of any staged group is longer than a length field can say,
/// and no group has more messages than a count can say.
pub open spec fn queues_fit(queues: Queues) -> bool {
    forall|c: int, g: int|
        0 <= c < queues.len() && 0 <= g < queues[c].len() ==> lengths_fit(
            (#[trigger] queues[c][g]).1,
        ) && queues[c][g].1.len() <= u64::MAX
}

/// What the channels from `from` on write is what the channel `from`
/// writes, followed by what the channels behind it write.
pub proof fn lemma_sections_split(queues: Queues, host_tick: Tick, room: int, from: int)
    requires
        0 <= from < queues.len(),
    ensures
        ({
            let count = queues.len() as int;
            let all_bits = sections_bits(queues, host_tick, room, count);
            let all_written = sections_written(queues, host_tick, room, count);
            let done_bits = sections_bits(queues, host_tick, room, from);
            let done_written = sections_written(queues, host_tick, room, from);
            let next_bits = sections_bits(queues, host_tick, room, from + 1);
            let next_written = sections_written(queues, host_tick, room, from + 1);
            let left = room_at(queues, host_tick, room, from);
            &&& done_bits.len() <= next_bits.len() <= all_bits.len()
            &&& done_written.len() <= next_written.len() <= all_written.len()
            &&& all_bits.skip(done_bits.len() as int) == section_bits(
                from,
                queues[from],
                host_tick,
                left,
            ) + all_bits.skip(next_bits.len() as int)
            &&& all_written.skip(done_written.len() as int) == (match section_count(
                queues[from],
                host_tick,
                left,
            ) {
                Some(groups) => seq![(from as u8, groups_shortened(queues[from].take(groups)))],
                None => Seq::empty(),
            }) + all_written.skip(next_written.len() as int)
        }),
{
    let count = queues.len() as int;
    let all_bits = sections_bits(queues, host_tick, room, count);
    let all_written = sections_written(queues, host_tick, room, count);
    let done_bits = sections_bits(queues, host_tick, room, from);
    let done_written = sections_written(queues, host_tick, room, from);
    let next_bits = sections_bits(queues, host_tick, room, from + 1);
    let next_written = sections_written(queues, host_tick, room, from + 1);
    let left = room_at(queues, host_tick, room, from);
    let section = section_bits(from, queues[from], host_tick, left);
    let part: Sections = match section_count(queues[from], host_tick, left) {
        Some(groups) => seq![(from as u8, groups_shortened(queues[from].take(groups)))],
        None => Seq::empty(),
    };
    lemma_sections_lead(queues, host_tick, room, from + 1, count);
    assert(next_bits == done_bits + section);
    assert(next_written =~= done_written + part);
    assert(all_bits =~= next_bits + all_bits.skip(next_bits.len() as int));
    assert(all_written =~= next_written + all_written.skip(next_written.len() as int));
    assert(all_bits.skip(done_bits.len() as int) =~= section + all_bits.skip(
        next_bits.len() as int,
    ));
    assert(all_written.skip(done_written.len() as int) =~= part + all_written.skip(
        next_written.len() as int,
    ));
}

/// What one channel writes, followed by parts that can be read, can be
/// read: as the channel's part, where it has one, and those parts.
proof fn lemma_section_round_trip(
    queues: Queues,
    host_tick: Tick,
    left: int,
    from: int,
    tail: Seq<bool>,
    tail_written: Sections,
    rest: Seq<bool>,
)
    requires
        queues.len() <= MAX_CHANNELS,
        queues_fit(queues),
        0 <= from < queues.len(),
        parse_sections(tail, host_tick, from + 1, queues.len() as int) == Some(
            (tail_written, rest),
        ),
    ensures
        parse_sections(
            section_bits(from, queues[from], host_tick, left) + tail,
            host_tick,
            from,
            queues.len() as int,
        ) == Some(
            (
                (match section_count(queues[from], host_tick, left) {
                    Some(groups) => seq![
                        (from as u8, groups_shortened(queues[from].take(groups))),
                    ],
                    None => Seq::empty(),
                }) + tail_written,
                rest,
            ),
        ),
{
    let count = queues.len() as int;
    let staged = queues[from];
    let stream = section_bits(from, staged, host_tick, left) + tail;
    match section_count(staged, host_tick, left) {
        Some(groups) => {
            let written = staged.take(groups);
            lemma_fit_count_fits(staged, host_tick, left - CHANNEL_PREFIX_BITS);
            lemma2_to64();
            assert(stream.subrange(1, 9) =~= bits_of_value(from as nat, 8));
            lemma_value_of_bits(from as nat, 8);
            assert(stream.skip(CHANNEL_PREFIX_BITS as int) =~= message_list_bits(
                host_tick,
                written,
            ) + tail);
            assert forall|i: int| 0 <= i < written.len() implies lengths_fit(
                (#[trigger] written[i]).1,
            ) && written[i].1.len() <= u64::MAX by {
                assert(written[i] == queues[from][i]);
            }
            lemma_message_list_round_trip(host_tick, written, tail);
        },
        None => {
            assert(stream =~= tail);
            assert(Seq::<(ChannelIndex, Seq<(Tick, Arrivals)>)>::empty() + tail_written
                =~= tail_written);
            lemma_parse_sections_from(tail, host_tick, from, from + 1, count);
        },
    }
}

/// What the channels from `from` on write into a packet is what is read
/// from it, each message under the low byte of its id, and what stood
/// behind the bit that ends the messages is what is left.
pub proof fn lemma_sections_round_trip(
    queues: Queues,
    host_tick: Tick,
    room: int,
    from: int,
    rest: Seq<bool>,
)
    requires
        queues.len() <= MAX_CHANNELS,
        queues_fit(queues),
        0 <= from <= queues.len(),
    ensures
        sections_bits(queues, host_tick, room, from).len() <= sections_bits(
            queues,
            host_tick,
            room,
            queues.len() as int,
        ).len(),
        sections_written(queues, host_tick, room, from).len() <= sections_written(
            queues,
            host_tick,
            room,
            queues.len() as int,
        ).len(),
        parse_sections(
            sections_bits(queues, host_tick, room, queues.len() as int).skip(
                sections_bits(queues, host_tick, room, from).len() as int,
            ) + seq![false] + rest,
            host_tick,
            from,
            queues.len() as int,
        ) == Some(
            (
                sections_written(queues, host_tick, room, queues.len() as int).skip(
                    sections_written(queues, host_tick, room, from).len() as int,
                ),
                rest,
            ),
        ),
    decreases queues.len() - from,
{
    let count = queues.len() as int;
    let all_bits = sections_bits(queues, host_tick, room, count);
    let all_written = sections_written(queues, host_tick, room, count);
    let done_bits = sections_bits(queues, host_tick, room, from);
    let done_written = sections_written(queues, host_tick, room, from);
    let stream = all_bits.skip(done_bits.len() as int) + seq![false] + rest;
    if from == count {
        assert(stream.skip(1) =~= rest);
        assert(all_written.skip(done_written.len() as int) =~= Seq::empty());
    } else {
        lemma_sections_round_trip(queues, host_tick, room, from + 1, rest);
        lemma_sections_split(queues, host_tick, room, from);
        let next_bits = sections_bits(queues, host_tick, room, from + 1);
        let next_written = sections_written(queues, host_tick, room, from + 1);
        let tail = all_bits.skip(next_bits.len() as int) + seq![false] + rest;
        let tail_written = all_written.skip(next_written.len() as int);
        let left = room_at(queues, host_tick, room, from);
        assert(stream =~= section_bits(from, queues[from], host_tick, left) + tail);
        lemma_section_round_trip(queues, host_tick, left, from, tail, tail_written, rest);
    }
}

/// What the channels write into a packet is what is read from it.
pub proof fn lemma_packet_round_trip(queues: Queues, host_tick: Tick, room: int, rest: Seq<bool>)
    requires
        queues.len() <= MAX_CHANNELS,
        queues_fit(queues),
    ensures
        parse_sections(
            sections_bits(queues, host_tick, room, queues.len() as int) + seq![false] + rest,
            host_tick,
            0,
            queues.len() as int,
        ) == Some((sections_written(queues, host_tick, room, queues.len() as int), rest)),
{
    let all_bits = sections_bits(queues, host_tick, room, queues.len() as int);
    let all_written = sections_written(queues, host_tick, room, queues.len() as int);
    lemma_sections_round_trip(queues, host_tick, room, 0, rest);
    assert(all_bits.skip(0) =~= all_bits);
    assert(all_written.skip(0) =~= all_written);
}

/// What the first channels write leads what more of them write.
pub proof fn lemma_sections_lead(queues: Queues, host_tick: Tick, room: int, fewer: int, upto: int)
    requires
        0 <= fewer <= upto,
    ensures
        sections_bits(queues, host_tick, room, fewer).len() <= sections_bits(
            queues,
            host_tick,
            room,
            upto,
        ).len(),
        sections_bits(queues, host_tick, room, upto).take(
            sections_bits(queues, host_tick, room, fewer).len() as int,
        ) == sections_bits(queues, host_tick, room, fewer),
        sections_written(queues, host_tick, room, fewer).len() <= sections_written(
            queues,
            host_tick,
            room,
            upto,
        ).len(),
        sections_written(queues, host_tick, room, upto).take(
            sections_written(queues, host_tick, room, fewer).len() as int,
        ) == sections_written(queues, host_tick, room, fewer),
    decreases upto - fewer,
{
    let bits = sections_bits(queues, host_tick, room, fewer);
    let written = sections_written(queues, host_tick, room, fewer);
    if fewer == upto {
        assert(bits.take(bits.len() as int) =~= bits);
        assert(written.take(written.len() as int) =~= written);
    } else {
        lemma_sections_lead(queues, host_tick, room, fewer, upto - 1);
        let shorter_bits = sections_bits(queues, host_tick, room, upto - 1);
        let shorter_written = sections_written(queues, host_tick, room, upto - 1);
        assert(sections_bits(queues, host_tick, room, upto).take(bits.len() as int)
            =~= shorter_bits.take(bits.len() as int));
        assert(sections_written(queues, host_tick, room, upto).take(written.len() as int)
            =~= shorter_written.take(written.len() as int));
    }
}

/// The buffers of all channels after the parts of one packet arrived.
pub open spec fn receive_sections(inboxes: Seq<Inbox>, host_tick: Tick, sections: Sections) -> Seq<
    Inbox,
>
    decreases sections.len(),
{
    if sections.len() == 0 {
        inboxes
    } else {
        let index = sections[0].0 as int;
        receive_sections(
            inboxes.update(index, receive_groups(inboxes[index], host_tick, sections[0].1)),
            host_tick,
            sections.drop_first(),
        )
    }
}

/// The histories of all channels after each of some messages was
/// delivered, in their order.
pub open spec fn deliver_all(histories: Seq<History>, carried: Carried) -> Seq<History>
    decreases carried.len(),
{
    if carried.len() == 0 {
        histories
    } else {
        let index = carried[0].0 as int;
        deliver_all(
            histories.update(index, after_delivery(histories[index], carried[0].1, carried[0].2)),
            carried.drop_first(),
        )
    }
}

/// Where the oldest packet with the number `index` stands among those on
/// the way; their count where there is none.
pub open spec fn find_flight(flights: Flights, index: PacketIndex) -> int
    decreases flights.len(),
{
    if flights.len() == 0 || flights[0].0 == index {
        0
    } else {
        1 + find_flight(flights.drop_first(), index)
    }
}

/// The packet that a notice speaks of.
pub open spec fn notice_index(notice: PacketNotice) -> PacketIndex {
    match notice {
        PacketNotice::Delivered(index) => index,
        PacketNotice::Dropped(index) => index,
    }
}

/// The histories and the packets on the way after one notice. The oldest
/// packet with the notice's number is on the way no more. Where it was
/// delivered, its messages leave the histories; where it was dropped, they
/// stay, to be sent again.
pub open spec fn after_notice(histories: Seq<History>, flights: Flights, notice: PacketNotice) -> (
    Seq<History>,
    Flights,
) {
    let at = find_flight(flights, notice_index(notice));
    if at < flights.len() {
        (
            match notice {
                PacketNotice::Delivered(_) => deliver_all(histories, flights[at].1),
                PacketNotice::Dropped(_) => histories,
            },
            flights.remove(at),
        )
    } else {
        (histories, flights)
    }
}

/// The histories and the packets on the way after some notices, in their
/// order.
pub open spec fn after_notices(
    histories: Seq<History>,
    flights: Flights,
    notices: Seq<PacketNotice>,
) -> (Seq<History>, Flights)
    decreases notices.len(),
{
    if notices.len() == 0 {
        (histories, flights)
    } else {
        let next = after_notice(histories, flights, notices[0]);
        after_notices(next.0, next.1, notices.drop_first())
    }
}

/// Every message on the way belongs to one of `channels` channels.
pub open spec fn flights_in_range(flights: Flights, channels: int) -> bool {
    forall|r: int, k: int|
        0 <= r < flights.len() && 0 <= k < flights[r].1.len() ==> (#[trigger] flights[r].1[k]).0
            < channels
}

/// The position that was found lies among the packets on the way, or is
/// their count; no packet in front of it has the number, and the packet at
/// it has.
pub proof fn lemma_find_flight(flights: Flights, index: PacketIndex)
    ensures
        0 <= find_flight(flights, index) <= flights.len(),
        forall|j: int| 0 <= j < find_flight(flights, index) ==> (#[trigger] flights[j]).0 != index,
        find_flight(flights, index) < flights.len() ==> flights[find_flight(flights, index)].0
            == index,
    decreases flights.len(),
{
    if !(flights.len() == 0 || flights[0].0 == index) {
        let rest = flights.drop_first();
        lemma_find_flight(rest, index);
        assert forall|j: int| 0 <= j < find_flight(flights, index) implies (
        #[trigger] flights[j]).0 != index by {
            if j > 0 {
                assert(flights[j] == rest[j - 1]);
            }
        }
    }
}

/// What the records of the packets on the way hold, as mathematical values.
pub open spec fn flights_view(
    records: Seq<(PacketIndex, Vec<(ChannelIndex, Tick, MessageId)>)>,
) -> Flights {
    Seq::new(records.len(), |i: int| (records[i].0, records[i].1@))
}

/// What the parts of a received packet hold, as mathematical values.
pub open spec fn sections_view(
    sections: Seq<(ChannelIndex, Vec<(Tick, Vec<(ShortMessageId, Message)>)>)>,
) -> Sections {
    Seq::new(sections.len(), |i: int| (sections[i].0, groups_view(sections[i].1@)))
}

/// Reads the parts of a data packet that was sent at `remote_tick`, up to
/// and with the bit that ends them.
pub fn read_sections(reader: &mut BitReader, remote_tick: &Tick, channels: usize) -> (r: Result<
    Vec<(ChannelIndex, Vec<(Tick, Vec<(ShortMessageId, Message)>)>)>,
    SerdeErr,
>)
    requires
        old(reader).wf(),
        channels <= MAX_CHANNELS,
    ensures
        final(reader).wf(),
        match r {
            Ok(sections) => {
                &&& parse_sections(old(reader)@, *remote_tick, 0, channels as int) == Some(
                    (sections_view(sections@), final(reader)@),
                )
                &&& forall|k: int|
                    0 <= k < sections@.len() ==> (#[trigger] sections@[k]).0 < channels
            },
            Err(_) => parse_sections(old(reader)@, *remote_tick, 0, channels as int) is None,
        },
{
    let ghost before = reader@;
    let mut sections: Vec<(ChannelIndex, Vec<(Tick, Vec<(ShortMessageId, Message)>)>)> = Vec::new();
    let mut from: usize = 0;
    assert(sections_view(sections@) =~= Seq::empty());
    loop
        invariant
            from <= channels <= MAX_CHANNELS,
            reader.wf(),
            before == old(reader)@,
            forall|k: int| 0 <= k < sections@.len() ==> (#[trigger] sections@[k]).0 < channels,
            parse_sections(before, *remote_tick, 0, channels as int) == match parse_sections(
                reader@,
                *remote_tick,
                from as int,
                channels as int,
            ) {
                Some((others, behind)) => Some((sections_view(sections@) + others, behind)),
                None => None,
            },
        decreases channels - from,
    {
        let ghost here = reader@;
        let ghost held = sections_view(sections@);
        let more = reader.read_bit()?;
        if !more {
            assert(held + Seq::<(ChannelIndex, Seq<(Tick, Arrivals)>)>::empty() =~= held);
            return Ok(sections);
        }
        let index = reader.read_bits(8)?;
        proof {
            lemma2_to64();
            assert(here.skip(1).take(8) =~= here.subrange(1, 9));
            assert(here.skip(1).skip(8) =~= here.skip(CHANNEL_PREFIX_BITS as int));
            lemma_bits_of_value_of(here.subrange(1, 9));
        }
        if index < from as u64 || index >= channels as u64 {
            return Err(SerdeErr);
        }
        let groups = parse_messages(reader, remote_tick)?;
        let ghost added = (index as u8, groups_view(groups@));
        sections.push((index as u8, groups));
        from = index as usize + 1;
        proof {
            assert(sections_view(sections@) =~= held.push(added));
            match parse_sections(reader@, *remote_tick, from as int, channels as int) {
                Some((others, behind)) => {
                    assert(held + (seq![added] + others) =~= held.push(added) + others);
                },
                None => {},
            }
        }
    }
}

/// The channels of a connection.
pub struct MessageManager {
    channels: Vec<ChannelTickBuffer>,
    packet_to_message_map: Vec<(PacketIndex, Vec<(ChannelIndex, Tick, MessageId)>)>,
}

impl MessageManager {
    /// The channels, by their numbers.
    pub closed spec fn channels(&self) -> Seq<ChannelTickBuffer> {
        self.channels@
    }

    /// The data packets on the way, oldest first.
    pub closed spec fn flights(&self) -> Flights {
        flights_view(self.packet_to_message_map@)
    }

    /// The history of every channel.
    pub open spec fn histories(&self) -> Seq<History> {
        Seq::new(self.channels().len(), |i: int| self.channels()[i].outgoing())
    }

    /// The staged groups of every channel.
    pub open spec fn queues(&self) -> Queues {
        Seq::new(self.channels().len(), |i: int| self.channels()[i].staged())
    }

    /// The received messages of every channel.
    pub open spec fn inboxes(&self) -> Seq<Inbox> {
        Seq::new(self.channels().len(), |i: int| self.channels()[i].incoming())
    }

    /// The timer of every channel.
    pub open spec fn timers(&self) -> Seq<Timer> {
        Seq::new(self.channels().len(), |i: int| self.channels()[i].resend_timer())
    }

    /// There are no more channels than can be numbered, each is valid, and
    /// every message on the way belongs to one of them.
    pub open spec fn wf(&self) -> bool {
        &&& self.channels().len() <= MAX_CHANNELS
        &&& forall|i: int| 0 <= i < self.channels().len() ==> (#[trigger] self.channels()[i]).wf()
        &&& flights_in_range(self.flights(), self.channels().len() as int)
    }

    /// A manager of one channel for each of the settings, with nothing
    /// held and nothing on the way.
    pub fn new(settings: &Vec<TickBufferSettings>, now: Millis) -> (r: MessageManager)
        requires
            settings@.len() <= MAX_CHANNELS,
        ensures
            r.wf(),
            r.channels().len() == settings@.len(),
            r.flights() == Flights::empty(),
            forall|i: int|
                0 <= i < settings@.len() ==> {
                    &&& (#[trigger] r.channels()[i]).outgoing() == History::empty()
                    &&& r.channels()[i].staged() == Seq::<(Tick, Staged)>::empty()
                    &&& r.channels()[i].incoming() == Inbox::empty()
                    &&& r.channels()[i].resend_timer() == Timer::new_spec(
                        settings@[i].resend_interval,
                        now,
                    )
                },
    {
        let mut channels: Vec<ChannelTickBuffer> = Vec::new();
        let mut i: usize = 0;
        while i < settings.len()
            invariant
                i <= settings@.len(),
                channels@.len() == i,
                forall|k: int|
                    0 <= k < i ==> {
                        &&& (#[trigger] channels@[k]).wf()
                        &&& channels@[k].outgoing() == History::empty()
                        &&& channels@[k].staged() == Seq::<(Tick, Staged)>::empty()
                        &&& channels@[k].incoming() == Inbox::empty()
                        &&& channels@[k].resend_timer() == Timer::new_spec(
                            settings@[k].resend_interval,
                            now,
                        )
                    },
            decreases settings@.len() - i,
        {
            channels.push(ChannelTickBuffer::new(&settings[i], now));
            i += 1;
        }
        let r = MessageManager { channels, packet_to_message_map: Vec::new() };
        assert(r.flights() =~= Flights::empty());
        r
    }

    /// How many channels there are.
    pub fn channel_count(&self) -> (r: usize)
        ensures
            r == self.channels().len(),
    {
        self.channels.len()
    }

    /// Whether `send_message` takes `host_tick` on the channel.
    pub fn can_send(&self, channel: ChannelIndex, host_tick: &Tick) -> (r: bool)
        requires
            self.wf(),
        ensures
            r == (channel < self.channels().len() && self.channels()[channel as int].may_send(
                *host_tick,
            )),
    {
        (channel as usize) < self.channels.len() && self.channels[channel as usize].can_send(
            host_tick,
        )
    }

    /// Records a message that the host sends on a channel at `host_tick`.
    pub fn send_message(&mut self, channel: ChannelIndex, host_tick: &Tick, message: &Message)
        requires
            old(self).wf(),
            channel < old(self).channels().len(),
            old(self).channels()[channel as int].may_send(*host_tick),
        ensures
            final(self).wf(),
            final(self).channels().len() == old(self).channels().len(),
            final(self).flights() == old(self).flights(),
            final(self).histories() == old(self).histories().update(
                channel as int,
                after_push(old(self).histories()[channel as int], *host_tick, message@),
            ),
            final(self).queues() == old(self).queues(),
            final(self).inboxes() == old(self).inboxes(),
            final(self).channels()[channel as int].resend_timer().forced(),
            forall|i: int|
                0 <= i < final(self).channels().len() && i != channel ==> final(self).channels()[i]
                    == old(self).channels()[i],
    {
        self.channels[channel as usize].send_message(host_tick, message);
        assert(self.histories() =~= old(self).histories().update(
            channel as int,
            after_push(old(self).histories()[channel as int], *host_tick, message@),
        ));
        assert(self.queues() =~= old(self).queues());
        assert(self.inboxes() =~= old(self).inboxes());
    }

    /// Every message of a channel that waits for `tick`, in the order of
    /// the short ids.
    pub fn collect_incoming_messages(&mut self, channel: ChannelIndex, tick: Tick) -> (r: Vec<
        Message,
    >)
        requires
            old(self).wf(),
            channel < old(self).channels().len(),
        ensures
            final(self).wf(),
            final(self).channels().len() == old(self).channels().len(),
            final(self).flights() == old(self).flights(),
            final(self).histories() == old(self).histories(),
            final(self).queues() == old(self).queues(),
            final(self).timers() == old(self).timers(),
            messages_view(r@) == collected(
                old(self).inboxes()[channel as int],
                tick,
            ).0,
            final(self).inboxes() == old(self).inboxes().update(
                channel as int,
                collected(old(self).inboxes()[channel as int], tick).1,
            ),
    {
        let output = self.channels[channel as usize].collect_incoming_messages(tick);
        assert(self.histories() =~= old(self).histories());
        assert(self.queues() =~= old(self).queues());
        assert(self.timers() =~= old(self).timers());
        assert(self.inboxes() =~= old(self).inboxes().update(
            channel as int,
            collected(old(self).inboxes()[channel as int], tick).1,
        ));
        output
    }

    /// Stages the held messages of every channel for which a round is due
    /// at `now`.
    pub fn collect_outgoing_messages(
        &mut self,
        now: Millis,
        client_sending_tick: &Tick,
        server_receivable_tick: &Tick,
    )
        requires
            old(self).wf(),
        ensures
            final(self).wf(),
            final(self).channels().len() == old(self).channels().len(),
            final(self).flights() == old(self).flights(),
            forall|i: int|
                0 <= i < final(self).channels().len() ==> staged_round(
                    old(self).channels()[i],
                    #[trigger] final(self).channels()[i],
                    now,
                    *client_sending_tick,
                    *server_receivable_tick,
                ),
    {
        let mut i: usize = 0;
        while i < self.channels.len()
            invariant
                i <= self.channels@.len(),
                self.channels@.len() == old(self).channels().len(),
                self.flights() == old(self).flights(),
                forall|k: int|
                    0 <= k < self.channels@.len() ==> (#[trigger] self.channels@[k]).wf(),
                forall|k: int|
                    0 <= k < i ==> staged_round(
                        old(self).channels()[k],
                        #[trigger] self.channels@[k],
                        now,
                        *client_sending_tick,
                        *server_receivable_tick,
                    ),
                forall|k: int|
                    i <= k < self.channels@.len() ==> #[trigger] self.channels@[k] == old(
                        self,
                    ).channels()[k],
            decreases self.channels@.len() - i,
        {
            self.channels[i].collect_outgoing_messages(
                now,
                client_sending_tick,
                server_receivable_tick,
            );
            i += 1;
        }
    }

    /// Whether any channel has a group that waits to be written.
    pub fn has_outgoing_messages(&self) -> (r: bool)
        ensures
            r == exists|i: int| 0 <= i < self.queues().len() && (#[trigger] self.queues()[i]).len()
                > 0,
    {
        let mut i: usize = 0;
        while i < self.channels.len()
            invariant
                i <= self.channels@.len(),
                forall|k: int| 0 <= k < i ==> (#[trigger] self.queues()[k]).len() == 0,
            decreases self.channels@.len() - i,
        {
            if self.channels[i].has_outgoing_messages() {
                assert(self.queues()[i as int].len() > 0);
                return true;
            }
            i += 1;
        }
        false
    }

    /// Writes the messages of a data packet behind its header: for each
    /// channel in turn as many of its staged groups as fit, and a zero bit
    /// in the end. The messages written are on the way under
    /// `packet_index` from then on. It says whether any message was
    /// written.
    pub fn write_messages(
        &mut self,
        writer: &mut BitWriter,
        packet_index: PacketIndex,
        host_tick: &Tick,
    ) -> (has_written: bool)
        requires
            old(self).wf(),
            old(writer).wf(),
            old(writer).room() >= 1,
        ensures
            final(self).wf(),
            final(writer).wf(),
            final(writer).reserved() == old(writer).reserved(),
            final(self).channels().len() == old(self).channels().len(),
            final(self).histories() == old(self).histories(),
            final(self).inboxes() == old(self).inboxes(),
            final(self).timers() == old(self).timers(),
            ({
                let room = old(writer).room() - 1;
                let count = old(self).queues().len() as int;
                let carried = sections_carried(old(self).queues(), *host_tick, room, count);
                &&& final(writer)@ == old(writer)@ + sections_bits(
                    old(self).queues(),
                    *host_tick,
                    room,
                    count,
                ) + seq![false]
                &&& final(self).queues() == queues_after(old(self).queues(), *host_tick, room)
                &&& has_written == (carried.len() > 0)
                &&& final(self).flights() == if has_written {
                    old(self).flights().push((packet_index, carried))
                } else {
                    old(self).flights()
                }
            }),
    {
        let ghost before = writer@;
        let ghost queues = self.queues();
        let ghost flights = self.flights();
        let ghost room = writer.room() - 1;
        let ghost count = self.channels@.len() as int;
        let mut carried: Vec<(ChannelIndex, Tick, MessageId)> = Vec::new();
        // room for the bit that ends the messages
        writer.reserve_bits(1);
        let mut i: usize = 0;
        assert(before + sections_bits(queues, *host_tick, room, 0) =~= before);
        while i < self.channels.len()
            invariant
                i <= count <= MAX_CHANNELS,
                self.channels@.len() == count,
                queues == old(self).queues(),
                queues.len() == count,
                self.flights() == flights,
                flights_in_range(flights, count),
                forall|k: int| 0 <= k < count ==> (#[trigger] self.channels@[k]).wf(),
                self.histories() == old(self).histories(),
                self.inboxes() == old(self).inboxes(),
                self.timers() == old(self).timers(),
                writer.wf(),
                writer.reserved() == old(writer).reserved() + 1,
                writer@ == before + sections_bits(queues, *host_tick, room, i as int),
                writer.room() == room_at(queues, *host_tick, room, i as int),
                carried@ == sections_carried(queues, *host_tick, room, i as int),
                forall|k: int| 0 <= k < carried@.len() ==> (#[trigger] carried@[k]).0 < count,
                forall|k: int|
                    0 <= k < i ==> (#[trigger] self.channels@[k]).staged() == queue_after(
                        queues[k],
                        *host_tick,
                        room_at(queues, *host_tick, room, k),
                    ),
                forall|k: int|
                    i <= k < count ==> #[trigger] self.channels@[k] == old(self).channels()[k],
            decreases count - i,
        {
            let ghost written = writer@;
            let ghost held = carried@;
            let ghost staged = queues[i as int];
            let ghost left = writer.room();
            assert(staged == self.channels@[i as int].staged());
            if self.channels[i].has_outgoing_messages() && writer.bits_free()
                >= CHANNEL_PREFIX_BITS + 1 {
                true.ser(writer);
                (i as u8).ser(writer);
                let pairs = self.channels[i].write_messages(writer, host_tick);
                let ghost groups = staged.take(
                    fit_count(staged, *host_tick, left - CHANNEL_PREFIX_BITS),
                );
                match pairs {
                    Some(pairs) => {
                        let ghost all = pairs@;
                        for pair in it: pairs
                            invariant
                                it.seq() == all,
                                i < count <= MAX_CHANNELS,
                                forall|k: int|
                                    0 <= k < carried@.len() ==> (#[trigger] carried@[k]).0 < count,
                                carried@ == held + marked(i as u8, all.take(it.index() as int)),
                        {
                            carried.push((i as u8, pair.0, pair.1));
                            assert(carried@ =~= held + marked(
                                i as u8,
                                all.take(it.index() + 1),
                            ));
                        }
                        assert(all.take(all.len() as int) =~= all);
                    },
                    None => {
                        assert(staged.skip(0) =~= staged);
                        assert(in_flight(groups) =~= Seq::empty());
                        assert(carried@ =~= held + marked(i as u8, in_flight(groups)));
                    },
                }
                assert(writer@ =~= written + section_bits(i as int, staged, *host_tick, left));
            } else {
                assert(written + section_bits(i as int, staged, *host_tick, left) =~= written);
                assert(held + section_carried(i as int, staged, *host_tick, left) =~= held);
            }
            proof {
                assert(self.histories() =~= old(self).histories());
                assert(self.inboxes() =~= old(self).inboxes());
                assert(self.timers() =~= old(self).timers());
            }
            i += 1;
        }
        // finish messages
        writer.release_bits(1);
        false.ser(writer);
        assert(self.queues() =~= queues_after(queues, *host_tick, room));
        if carried.len() > 0 {
            let ghost all = carried@;
            self.packet_to_message_map.push((packet_index, carried));
            assert(self.flights() =~= flights.push((packet_index, all)));
            true
        } else {
            false
        }
    }

    /// Reads the messages of a data packet that was sent at `remote_tick`
    /// and takes them in. A packet that cannot be read to the end of its
    /// messages changes nothing.
    pub fn read_messages(
        &mut self,
        host_tick: &Tick,
        remote_tick: &Tick,
        reader: &mut BitReader,
    ) -> (r: Result<(), SerdeErr>)
        requires
            old(self).wf(),
            old(reader).wf(),
        ensures
            final(self).wf(),
            final(reader).wf(),
            final(self).channels().len() == old(self).channels().len(),
            final(self).flights() == old(self).flights(),
            final(self).histories() == old(self).histories(),
            final(self).queues() == old(self).queues(),
            final(self).timers() == old(self).timers(),
            match parse_sections(
                old(reader)@,
                *remote_tick,
                0,
                old(self).channels().len() as int,
            ) {
                Some((sections, rest)) => {
                    &&& r is Ok
                    &&& final(reader)@ == rest
                    &&& final(self).inboxes() == receive_sections(
                        old(self).inboxes(),
                        *host_tick,
                        sections,
                    )
                },
                None => r is Err && final(self).inboxes() == old(self).inboxes(),
            },
    {
        let sections = read_sections(reader, remote_tick, self.channels.len())?;
        self.receive_sections(host_tick, sections);
        Ok(())
    }

    /// Takes in the messages of the parts of one packet, in their order.
    pub fn receive_sections(
        &mut self,
        host_tick: &Tick,
        sections: Vec<(ChannelIndex, Vec<(Tick, Vec<(ShortMessageId, Message)>)>)>,
    )
        requires
            old(self).wf(),
            forall|k: int|
                0 <= k < sections@.len() ==> (#[trigger] sections@[k]).0 < old(
                    self,
                ).channels().len(),
        ensures
            final(self).wf(),
            final(self).channels().len() == old(self).channels().len(),
            final(self).flights() == old(self).flights(),
            final(self).histories() == old(self).histories(),
            final(self).queues() == old(self).queues(),
            final(self).timers() == old(self).timers(),
            final(self).inboxes() == receive_sections(
                old(self).inboxes(),
                *host_tick,
                sections_view(sections@),
            ),
    {
        let ghost all = sections@;
        let ghost start = self.inboxes();
        assert(sections_view(all).skip(0) =~= sections_view(all));
        for section in it: sections
            invariant
                it.seq() == all,
                self.wf(),
                self.channels@.len() == old(self).channels().len(),
                forall|k: int|
                    0 <= k < all.len() ==> (#[trigger] all[k]).0 < old(self).channels().len(),
                self.flights() == old(self).flights(),
                self.histories() == old(self).histories(),
                self.queues() == old(self).queues(),
                self.timers() == old(self).timers(),
                receive_sections(start, *host_tick, sections_view(all)) == receive_sections(
                    self.inboxes(),
                    *host_tick,
                    sections_view(all).skip(it.index() as int),
                ),
        {
            let ghost at = it.index() as int;
            let ghost waiting = sections_view(all).skip(at);
            let ghost entering = self.inboxes();
            assert(all[at] == section);
            let (channel, groups) = section;
            proof {
                assert(waiting[0] == (channel, groups_view(groups@)));
                assert(waiting.drop_first() =~= sections_view(all).skip(at + 1));
            }
            self.channels[channel as usize].receive_messages(host_tick, groups);
            proof {
                assert(self.inboxes() =~= entering.update(
                    channel as int,
                    receive_groups(entering[channel as int], *host_tick, waiting[0].1),
                ));
                assert(self.histories() =~= old(self).histories());
                assert(self.queues() =~= old(self).queues());
                assert(self.timers() =~= old(self).timers());
            }
        }
    }

    /// Takes note that a packet has arrived: it is on the way no more, and
    /// the messages that it carried leave the histories of their channels.
    pub fn notify_packet_delivered(&mut self, packet_index: PacketIndex)
        requires
            old(self).wf(),
        ensures
            final(self).wf(),
            final(self).channels().len() == old(self).channels().len(),
            (final(self).histories(), final(self).flights()) == after_notice(
                old(self).histories(),
                old(self).flights(),
                PacketNotice::Delivered(packet_index),
            ),
            final(self).queues() == old(self).queues(),
            final(self).inboxes() == old(self).inboxes(),
            final(self).timers() == old(self).timers(),
    {
        let ghost flights = self.flights();
        let ghost histories = self.histories();
        let ghost count = self.channels@.len();
        proof {
            lemma_find_flight(flights, packet_index);
        }
        match self.take_flight(packet_index) {
            Some(carried) => {
                let ghost all = carried@;
                assert(all.skip(0) =~= all);
                for message in it: carried
                    invariant
                        it.seq() == all,
                        self.wf(),
                        self.channels@.len() == count,
                        forall|k: int| 0 <= k < all.len() ==> (#[trigger] all[k]).0 < count,
                        self.flights() == flights.remove(find_flight(flights, packet_index)),
                        self.queues() == old(self).queues(),
                        self.inboxes() == old(self).inboxes(),
                        self.timers() == old(self).timers(),
                        deliver_all(histories, all) == deliver_all(
                            self.histories(),
                            all.skip(it.index() as int),
                        ),
                {
                    let ghost entering = self.histories();
                    let ghost left = all.skip(it.index() as int);
                    assert(all[it.index() as int] == message);
                    proof {
                        assert(left[0] == message);
                        assert(left.drop_first() =~= all.skip(it.index() + 1));
                    }
                    let (channel, tick, message_id) = message;
                    self.channels[channel as usize].notify_message_delivered(&tick, &message_id);
                    proof {
                        assert(self.histories() =~= entering.update(
                            channel as int,
                            after_delivery(entering[channel as int], tick, message_id),
                        ));
                        assert(self.queues() =~= old(self).queues());
                        assert(self.inboxes() =~= old(self).inboxes());
                        assert(self.timers() =~= old(self).timers());
                    }
                }
            },
            None => {},
        }
    }

    /// Takes note that a packet is lost: it is on the way no more. The
    /// messages that it carried stay in the histories, to be sent again.
    pub fn notify_packet_dropped(&mut self, packet_index: PacketIndex)
        requires
            old(self).wf(),
        ensures
            final(self).wf(),
            final(self).channels() == old(self).channels(),
            (final(self).histories(), final(self).flights()) == after_notice(
                old(self).histories(),
                old(self).flights(),
                PacketNotice::Dropped(packet_index),
            ),
    {
        proof {
            lemma_find_flight(self.flights(), packet_index);
        }
        let _ = self.take_flight(packet_index);
    }

    // Takes the oldest packet with the number off the record, and hands out
    // what it carried.
    fn take_flight(&mut self, packet_index: PacketIndex) -> (r: Option<
        Vec<(ChannelIndex, Tick, MessageId)>,
    >)
        requires
            old(self).wf(),
        ensures
            final(self).wf(),
            final(self).channels() == old(self).channels(),
            match r {
                Some(carried) => {
                    let at = find_flight(old(self).flights(), packet_index);
                    &&& at < old(self).flights().len()
                    &&& carried@ == old(self).flights()[at].1
                    &&& final(self).flights() == old(self).flights().remove(at)
                    &&& forall|k: int|
                        0 <= k < carried@.len() ==> (#[trigger] carried@[k]).0 < old(
                            self,
                        ).channels().len()
                },
                None => {
                    &&& find_flight(old(self).flights(), packet_index) == old(self).flights().len()
                    &&& final(self).flights() == old(self).flights()
                },
            },
    {
        let ghost flights = self.flights();
        proof {
            lemma_find_flight(flights, packet_index);
        }
        let mut at: usize = 0;
        while at < self.packet_to_message_map.len() && self.packet_to_message_map[at].0
            != packet_index
            invariant
                at <= self.packet_to_message_map@.len(),
                self.flights() == flights,
                flights.len() == self.packet_to_message_map@.len(),
                forall|j: int| 0 <= j < at ==> (#[trigger] flights[j]).0 != packet_index,
            decreases self.packet_to_message_map@.len() - at,
        {
            at += 1;
        }
        if at < self.packet_to_message_map.len() {
            assert(flights[at as int].0 == packet_index);
            let record = self.packet_to_message_map.remove(at);
            assert(self.flights() =~= flights.remove(at as int));
            assert(record.1@ == flights[at as int].1);
            assert forall|k: int| 0 <= k < record.1@.len() implies (#[trigger] record.1@[k]).0
                < self.channels@.len() by {
                assert(flights[at as int].1[k] == record.1@[k]);
            }
            assert forall|r: int, k: int|
                0 <= r < self.flights().len() && 0 <= k < self.flights()[r].1.len() implies (
            #[trigger] self.flights()[r].1[k]).0 < self.channels@.len() by {
                let from = if r < at { r } else { r + 1 };
                assert(self.flights()[r] == flights[from]);
                assert(flights[from].1[k].0 < self.channels@.len());
            }
            Some(record.1)
        } else {
            None
        }
    }
}

} // verus!
