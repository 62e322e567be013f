//! The channel that carries tick-stamped messages: the sender holds each
//! message until it is acknowledged or too old to matter, the receiver
//! holds it until its tick has come.

use crate::message_list_header;
use crate::bits::{BitReader, BitWriter, MTU_SIZE_BITS, SerdeErr, lemma_bits_of_value_of};
use crate::framing::{
    Staged, entries_bits, group_bits, groups_bits, groups_shortened, ids_of, in_flight,
    last_tick_of, lemma_entries_bits_push, lemma_entries_bits_split, lemma_groups_bits_grow,
    lemma_groups_bits_push, lemma_message_list_round_trip, lemma_parse_entries_needs, lengths_fit,
    message_list_bits, parse_entries, parse_group, parse_groups, parse_message_list,
};
use crate::incoming::{
    Arrivals, Inbox, IncomingMessages, arrivals_view, collected, groups_receivable, inbox_of,
    inbox_wf, lemma_collected_step, lemma_receive_groups_into_empty, pending, receive_entries,
    receive_groups,
};
use crate::message::{Message, MessageId, MessageView, ShortMessageId, live_entries, staged_view};
use crate::message_list_header::{lemma_list_header_grows, list_header_bits};
use crate::outgoing::{
    History, OutgoingMessages, after_delivery, after_prune, after_push, history_wf,
    lemma_sendable_count_unique, sendable_count, ticks_of,
};
use crate::tick::{Tick, at_or_later_than, later_than, sequence_greater_than, steps_forward};
use crate::timer::{Millis, Timer};
use crate::varint::{
    MAX_GROUPS, lemma_varint_length, lemma_varint_parse_bound, read_varint, varint_bits,
    varint_groups, varint_len, varint_parse, write_varint,
};
use crate::wire::Serde;
use std::collections::VecDeque;
use vstd::arithmetic::power2::lemma2_to64;
use vstd::prelude::*;

verus! {

/// How a tick-buffered channel is set up.
#[derive(Clone, Copy, Debug)]
pub struct TickBufferSettings {
    /// The least time between two rounds of sending the held messages again.
    pub resend_interval: Millis,
}

/// The groups that a round of staging adds while the sender is at
/// `sending`: the front entries of the history up to the first one whose
/// tick is yet to come, each with the messages it still holds.
pub open spec fn staging(history: History, sending: Tick) -> Seq<(Tick, Staged)> {
    Seq::new(
        sendable_count(ticks_of(history), sending) as nat,
        |i: int| (history[i].0, live_entries(history[i].1)),
    )
}

/// What a queue of staged groups holds, as mathematical values.
pub open spec fn queue_view(queue: Seq<(Tick, Vec<(MessageId, Message)>)>) -> Seq<(Tick, Staged)> {
    Seq::new(queue.len(), |i: int| (queue[i].0, staged_view(queue[i].1@)))
}

/// How a channel stands after it was asked at `now` to stage its held
/// messages, given how it stood before. Where no round was due, nothing
/// has changed. Else the history has lost the entries up to
/// `server_receivable_tick`, the queue has gained the entries up to
/// `client_sending_tick`, and the timer counts from `now`.
pub open spec fn staged_round(
    before: ChannelTickBuffer,
    after: ChannelTickBuffer,
    now: Millis,
    client_sending_tick: Tick,
    server_receivable_tick: Tick,
) -> bool {
    if before.resend_timer().rings(now) {
        &&& after.outgoing() == after_prune(before.outgoing(), server_receivable_tick)
        &&& after.staged() == before.staged() + staging(after.outgoing(), client_sending_tick)
        &&& after.resend_timer() == Timer::new_spec(before.resend_timer().duration(), now)
        &&& after.incoming() == before.incoming()
    } else {
        after == before
    }
}

/// One end of a tick-buffered channel.
pub struct ChannelTickBuffer {
    sending_messages: OutgoingMessages,
    next_send_messages: VecDeque<(Tick, Vec<(MessageId, Message)>)>,
    resend_timer: Timer,
    incoming_messages: IncomingMessages,
}

impl ChannelTickBuffer {
    /// The history of sent messages that are not yet acknowledged.
    pub closed spec fn outgoing(&self) -> History {
        self.sending_messages@
    }

    /// The groups that wait to be written into a packet, first to go first.
    pub closed spec fn staged(&self) -> Seq<(Tick, Staged)> {
        queue_view(self.next_send_messages@)
    }

    /// The received messages that wait for their tick.
    pub closed spec fn incoming(&self) -> Inbox {
        self.incoming_messages@
    }

    /// The timer that paces the rounds of staging.
    pub closed spec fn resend_timer(&self) -> Timer {
        self.resend_timer
    }

    /// The per-tick maps of the history keep true counts.
    pub closed spec fn counts_agree(&self) -> bool {
        self.sending_messages.counts_agree()
    }

    /// The history and the buffer of received messages are valid.
    pub open spec fn wf(&self) -> bool {
        &&& self.counts_agree()
        &&& history_wf(self.outgoing())
        &&& inbox_wf(self.incoming())
    }

    /// Whether `send_message` takes `host_tick`: it must not be older than
    /// the most recent tick that the history holds.
    pub open spec fn may_send(&self, host_tick: Tick) -> bool {
        self.outgoing().len() > 0 ==> at_or_later_than(host_tick, self.outgoing()[0].0)
    }

    /// A channel with nothing held, whose first round of staging is due one
    /// interval after `now`.
    pub fn new(settings: &TickBufferSettings, now: Millis) -> (r: ChannelTickBuffer)
        ensures
            r.wf(),
            r.outgoing() == History::empty(),
            r.staged() == Seq::<(Tick, Staged)>::empty(),
            r.incoming() == Inbox::empty(),
            r.resend_timer() == Timer::new_spec(settings.resend_interval, now),
            r.resend_timer().duration() == settings.resend_interval,
            r.resend_timer().last() == now,
            !r.resend_timer().forced(),
    {
        let r = ChannelTickBuffer {
            sending_messages: OutgoingMessages::new(),
            next_send_messages: VecDeque::new(),
            resend_timer: Timer::new(settings.resend_interval, now),
            incoming_messages: IncomingMessages::new(),
        };
        assert(r.staged() =~= Seq::<(Tick, Staged)>::empty());
        r
    }

    /// Whether `send_message` takes `host_tick`.
    pub fn can_send(&self, host_tick: &Tick) -> (r: bool)
        requires
            self.wf(),
        ensures
            r == self.may_send(*host_tick),
    {
        match self.sending_messages.front_tick() {
            Some(front) => *host_tick == front || sequence_greater_than(*host_tick, front),
            None => true,
        }
    }

    /// Stages the held messages for sending, if a round is due at `now`.
    /// First the entries that the server can no longer use are dropped:
    /// those up to `server_receivable_tick`. Then every entry up to
    /// `client_sending_tick` is queued with the messages it still holds.
    pub fn collect_outgoing_messages(
        &mut self,
        now: Millis,
        client_sending_tick: &Tick,
        server_receivable_tick: &Tick,
    )
        requires
            old(self).wf(),
        ensures
            final(self).wf(),
            staged_round(
                *old(self),
                *final(self),
                now,
                *client_sending_tick,
                *server_receivable_tick,
            ),
    {
        if !self.resend_timer.ringing(now) {
            return ;
        }
        // drop what would never be of use to the server
        self.sending_messages.pop_back_until_excluding(server_receivable_tick);
        self.resend_timer.reset(now);

        let ghost history = self.sending_messages@;
        let ghost ticks = ticks_of(history);
        let ghost queued = self.staged();
        let mut entries = self.sending_messages.iter();
        let mut count: usize = 0;
        let mut stop = false;
        while count < entries.len() && !stop
            invariant
                count <= entries@.len(),
                entries@.len() == history.len(),
                ticks == ticks_of(history),
                forall|j: int|
                    0 <= j < entries@.len() ==> (#[trigger] entries@[j]).0 == history[j].0,
                forall|j: int|
                    0 <= j < count ==> !later_than(#[trigger] ticks[j], *client_sending_tick),
                stop ==> count < entries@.len() && later_than(
                    ticks[count as int],
                    *client_sending_tick,
                ),
            decreases entries@.len() - count + if stop { 0int } else { 1int },
        {
            assert(ticks[count as int] == entries@[count as int].0);
            if sequence_greater_than(entries[count].0, *client_sending_tick) {
                // a tick that is yet to come must not go out
                stop = true;
            } else {
                count += 1;
            }
        }
        proof {
            lemma_sendable_count_unique(ticks, *client_sending_tick, count as int);
        }
        entries.truncate(count);
        let ghost chosen = entries@;
        assert(queue_view(chosen) =~= staging(history, *client_sending_tick));
        for entry in it: entries
            invariant
                it.seq() == chosen,
                self.wf(),
                self.sending_messages@ == history,
                self.incoming() == old(self).incoming(),
                self.resend_timer == Timer::new_spec(old(self).resend_timer().duration(), now),
                self.staged() == queued + queue_view(chosen.take(it.index() as int)),
        {
            let ghost prior = self.staged();
            self.next_send_messages.push_back(entry);
            assert(self.staged() =~= prior.push((entry.0, staged_view(entry.1@))));
            assert(queue_view(chosen.take(it.index() + 1)) =~= queue_view(
                chosen.take(it.index() as int),
            ).push((entry.0, staged_view(entry.1@))));
        }
        assert(chosen.take(chosen.len() as int) =~= chosen);
    }

    /// Records a message that the host sends at `host_tick`, and makes the
    /// next round of staging due at once.
    pub fn send_message(&mut self, host_tick: &Tick, message: &Message)
        requires
            old(self).wf(),
            old(self).may_send(*host_tick),
        ensures
            final(self).wf(),
            final(self).outgoing() == after_push(old(self).outgoing(), *host_tick, message@),
            final(self).staged() == old(self).staged(),
            final(self).incoming() == old(self).incoming(),
            final(self).resend_timer().forced(),
            final(self).resend_timer().duration() == old(self).resend_timer().duration(),
            final(self).resend_timer().last() == old(self).resend_timer().last(),
    {
        self.sending_messages.push(*host_tick, message.duplicate());
        self.resend_timer.ring_manual();
    }

    /// Whether any group waits to be written into a packet.
    pub fn has_outgoing_messages(&self) -> (r: bool)
        ensures
            r == (self.staged().len() != 0),
    {
        self.next_send_messages.len() != 0
    }

    /// Takes a message out of the history once the packet that carried it
    /// is known to have arrived.
    pub fn notify_message_delivered(&mut self, tick: &Tick, message_id: &MessageId)
        requires
            old(self).wf(),
        ensures
            final(self).wf(),
            final(self).outgoing() == after_delivery(old(self).outgoing(), *tick, *message_id),
            final(self).staged() == old(self).staged(),
            final(self).incoming() == old(self).incoming(),
            final(self).resend_timer() == old(self).resend_timer(),
    {
        self.sending_messages.remove_message(tick, message_id);
    }
}

/// Whether the first `count` staged groups, with their count in front, fit
/// in `room` bits.
pub open spec fn groups_fit(
    staged: Seq<(Tick, Staged)>,
    baseline: Tick,
    count: int,
    room: int,
) -> bool {
    &&& 0 <= count <= staged.len()
    &&& count <= u16::MAX
    &&& message_list_bits(baseline, staged.take(count)).len() <= room
}

/// The count with which the room for a list is measured before its groups
/// are: a list is begun only where a count of this size has room.
pub const MEASURED_LIST_COUNT: u16 = 123;

/// Whether a list can be begun in `room` bits.
pub open spec fn list_has_room(room: int) -> bool {
    room >= list_header_bits(MEASURED_LIST_COUNT).len()
}

/// The measured count takes thirteen bits, and no list with a group in it
/// takes fewer.
pub proof fn lemma_measured_list(staged: Seq<(Tick, Staged)>, baseline: Tick)
    ensures
        list_header_bits(MEASURED_LIST_COUNT).len() == 13,
        staged.len() >= 1 ==> message_list_bits(baseline, staged.take(1)).len() >= 13,
{
    assert(varint_groups(1) == 1);
    assert(varint_groups(15) == 2);
    assert(varint_groups(123) == 3);
    lemma_varint_length(123);
    lemma_varint_length(1);
    if staged.len() >= 1 {
        let first = staged.take(1);
        let group = group_bits(baseline, first[0].0, first[0].1);
        lemma_varint_length(steps_forward(first[0].0, baseline) as nat);
        lemma_varint_length(first[0].1.len());
        assert(group.len() >= 8);
        assert(groups_bits(baseline, first).len() >= group.len());
    }
}

/// Where some groups fit with their count in front, fewer of them do.
pub proof fn lemma_fewer_groups_fit(
    staged: Seq<(Tick, Staged)>,
    baseline: Tick,
    fewer: int,
    count: int,
    room: int,
)
    requires
        0 <= fewer <= count,
        groups_fit(staged, baseline, count, room),
    ensures
        groups_fit(staged, baseline, fewer, room),
{
    lemma_groups_bits_grow(baseline, staged, fewer, count);
    lemma_list_header_grows(fewer as u16, count as u16);
}

/// How many of the staged groups are written into `room` bits: as many
/// from the front as fit with their count in front, and no more than the
/// count can say.
pub open spec fn fit_count(staged: Seq<(Tick, Staged)>, baseline: Tick, room: int) -> int {
    choose|count: int|
        #[trigger] groups_fit(staged, baseline, count, room) && !groups_fit(
            staged,
            baseline,
            count + 1,
            room,
        )
}

/// The count of groups that fit, and of which one more does not, is the
/// count of groups that are written.
pub proof fn lemma_fit_count(staged: Seq<(Tick, Staged)>, baseline: Tick, room: int, count: int)
    requires
        groups_fit(staged, baseline, count, room),
        !groups_fit(staged, baseline, count + 1, room),
    ensures
        fit_count(staged, baseline, room) == count,
{
    let chosen = fit_count(staged, baseline, room);
    if chosen < count {
        lemma_fewer_groups_fit(staged, baseline, chosen + 1, count, room);
    } else if count < chosen {
        lemma_fewer_groups_fit(staged, baseline, count + 1, chosen, room);
    }
}

/// Where some count of groups fits, some count from there on fits and is
/// the last to fit.
proof fn lemma_last_fit_exists(
    staged: Seq<(Tick, Staged)>,
    baseline: Tick,
    room: int,
    count: int,
) -> (last: int)
    requires
        groups_fit(staged, baseline, count, room),
    ensures
        groups_fit(staged, baseline, last, room),
        !groups_fit(staged, baseline, last + 1, room),
    decreases staged.len() - count,
{
    if groups_fit(staged, baseline, count + 1, room) {
        lemma_last_fit_exists(staged, baseline, room, count + 1)
    } else {
        count
    }
}

/// Where there is room for the count of an empty list, the groups that
/// are written fit, and one more would not.
pub proof fn lemma_fit_count_fits(staged: Seq<(Tick, Staged)>, baseline: Tick, room: int)
    requires
        room >= 1,
    ensures
        groups_fit(staged, baseline, fit_count(staged, baseline, room), room),
        !groups_fit(staged, baseline, fit_count(staged, baseline, room) + 1, room),
{
    assert(staged.take(0) =~= Seq::<(Tick, Staged)>::empty());
    assert(groups_bits(baseline, staged.take(0)) =~= Seq::<bool>::empty());
    let last = lemma_last_fit_exists(staged, baseline, room, 0);
}

/// How many bits the messages of `message_tick` take behind a group of
/// `last_written_tick`, where they fit in a packet at all.
pub fn group_bit_len(
    last_written_tick: &Tick,
    message_tick: &Tick,
    messages: &Vec<(MessageId, Message)>,
) -> (r: Option<usize>)
    ensures
        match r {
            Some(count) => count == group_bits(
                *last_written_tick,
                *message_tick,
                staged_view(messages@),
            ).len() && count <= MTU_SIZE_BITS,
            None => group_bits(*last_written_tick, *message_tick, staged_view(messages@)).len()
                > MTU_SIZE_BITS,
        },
{
    let ghost entries = staged_view(messages@);
    let steps: u16 = last_written_tick.wrapping_sub(*message_tick);
    let mut count: usize = varint_len(steps as u64) + varint_len(messages.len() as u64);
    let ghost head = count;
    let mut i: usize = 0;
    assert(entries.take(0) =~= Seq::<(MessageId, MessageView)>::empty());
    while i < messages.len()
        invariant
            i <= messages@.len(),
            entries == staged_view(messages@),
            head == varint_bits(steps_forward(*message_tick, *last_written_tick) as nat).len()
                + varint_bits(entries.len()).len(),
            count == head + entries_bits(entries.take(i as int)).len(),
            count <= MTU_SIZE_BITS,
        decreases messages@.len() - i,
    {
        proof {
            lemma_entries_bits_split(entries, i as int);
            lemma_entries_bits_split(entries, i + 1);
            assert(entries.take(i + 1) =~= entries.take(i as int).push(entries[i as int]));
            lemma_entries_bits_push(
                entries.take(i as int),
                entries[i as int].0,
                entries[i as int].1,
            );
        }
        match messages[i].1.bit_len() {
            Some(bits) => {
                if count + 8 + bits > MTU_SIZE_BITS {
                    return None;
                }
                count = count + 8 + bits;
            },
            None => {
                return None;
            },
        }
        i += 1;
    }
    assert(entries.take(i as int) =~= entries);
    Some(count)
}

impl ChannelTickBuffer {
    /// Writes the messages of `message_tick` as one group behind a group of
    /// `last_written_tick`, and gives back their ids.
    pub fn write_message(
        writer: &mut BitWriter,
        last_written_tick: &Tick,
        message_tick: &Tick,
        messages: &Vec<(MessageId, Message)>,
    ) -> (r: Vec<MessageId>)
        requires
            old(writer).wf(),
            group_bits(*last_written_tick, *message_tick, staged_view(messages@)).len() <= old(
                writer,
            ).room(),
        ensures
            final(writer).wf(),
            final(writer)@ == old(writer)@ + group_bits(
                *last_written_tick,
                *message_tick,
                staged_view(messages@),
            ),
            final(writer).reserved() == old(writer).reserved(),
            r@ == ids_of(staged_view(messages@)),
    {
        let ghost before = writer@;
        let ghost entries = staged_view(messages@);
        let mut message_ids: Vec<MessageId> = Vec::new();

        // the distance is counted backwards: a packet's groups go from the
        // most recent tick to the oldest
        let steps: u16 = last_written_tick.wrapping_sub(*message_tick);
        write_varint(writer, steps as u64);
        write_varint(writer, messages.len() as u64);

        let ghost head = writer@;
        let mut i: usize = 0;
        assert(entries.take(0) =~= Seq::<(MessageId, MessageView)>::empty());
        assert(head + entries_bits(entries.take(0)) =~= head);
        while i < messages.len()
            invariant
                i <= messages@.len(),
                entries == staged_view(messages@),
                writer.wf(),
                writer.reserved() == old(writer).reserved(),
                head.len() + entries_bits(entries).len() + writer.reserved() <= MTU_SIZE_BITS,
                writer@ == head + entries_bits(entries.take(i as int)),
                message_ids@ == ids_of(entries.take(i as int)),
            decreases messages@.len() - i,
        {
            proof {
                lemma_entries_bits_split(entries, i + 1);
                assert(entries.take(i + 1) =~= entries.take(i as int).push(entries[i as int]));
                lemma_entries_bits_push(
                    entries.take(i as int),
                    entries[i as int].0,
                    entries[i as int].1,
                );
            }
            let message_id: MessageId = messages[i].0;
            message_ids.push(message_id);
            let short_msg_id: u8 = (message_id % 256) as u8;
            short_msg_id.ser(writer);
            messages[i].1.write(writer);
            i += 1;
            assert(writer@ =~= head + entries_bits(entries.take(i as int)));
            assert(message_ids@ =~= ids_of(entries.take(i as int)));
        }
        assert(entries.take(i as int) =~= entries);
        assert(writer@ =~= before + group_bits(*last_written_tick, *message_tick, entries));
        message_ids
    }

    /// Writes as many of the staged groups as fit, first in the queue first,
    /// with their count in front, and takes them off the queue. It gives
    /// back the tick and id of every message written, which are none where
    /// nothing is staged or the first group does not fit. Where the writer
    /// has no room to begin a list, an empty list is written all the same,
    /// and nothing is given back.
    pub fn write_messages(&mut self, writer: &mut BitWriter, host_tick: &Tick) -> (r: Option<
        Vec<(Tick, MessageId)>,
    >)
        requires
            old(self).wf(),
            old(writer).wf(),
            old(writer).room() >= 1,
        ensures
            final(self).wf(),
            final(writer).wf(),
            final(writer).reserved() == old(writer).reserved(),
            final(self).outgoing() == old(self).outgoing(),
            final(self).incoming() == old(self).incoming(),
            final(self).resend_timer() == old(self).resend_timer(),
            final(self).staged().len() <= old(self).staged().len(),
            ({
                let count = old(self).staged().len() - final(self).staged().len();
                let written = old(self).staged().take(count);
                &&& final(self).staged() == old(self).staged().skip(count)
                &&& final(writer)@ == old(writer)@ + message_list_bits(*host_tick, written)
                &&& count == fit_count(old(self).staged(), *host_tick, old(writer).room())
                &&& groups_fit(old(self).staged(), *host_tick, count, old(writer).room())
                &&& !groups_fit(old(self).staged(), *host_tick, count + 1, old(writer).room())
                &&& if list_has_room(old(writer).room()) {
                    r matches Some(pairs) && pairs@ == in_flight(written)
                } else {
                    r is None && count == 0
                }
            }),
    {
        let ghost staged = self.staged();
        let ghost before = writer@;
        let room: usize = writer.bits_free();
        let mut message_count: u16 = 0;

        // is there room to begin a list at all?
        if room < message_list_header::bit_len(MEASURED_LIST_COUNT) {
            proof {
                lemma_measured_list(staged, *host_tick);
                assert(staged.take(0) =~= Seq::<(Tick, Staged)>::empty());
                assert(groups_bits(*host_tick, staged.take(0)) =~= Seq::<bool>::empty());
                lemma_fit_count(staged, *host_tick, room as int, 0);
                assert(staged.skip(0) =~= staged);
            }
            message_list_header::write(writer, 0);
            assert(writer@ =~= before + message_list_bits(*host_tick, staged.take(0)));
            return None;
        }

        // find how many groups fit into the packet
        let mut body: usize = 0;
        let mut last_written_tick: Tick = *host_tick;
        let mut full = false;
        assert(staged.take(0) =~= Seq::<(Tick, Staged)>::empty());
        while !full && (message_count as usize) < self.next_send_messages.len() && message_count
            < u16::MAX
            invariant
                self.staged() == staged,
                self.next_send_messages@.len() == staged.len(),
                message_count <= staged.len(),
                1 <= room <= MTU_SIZE_BITS,
                body == groups_bits(*host_tick, staged.take(message_count as int)).len(),
                last_written_tick == last_tick_of(*host_tick, staged.take(message_count as int)),
                groups_fit(staged, *host_tick, message_count as int, room as int),
                full ==> !groups_fit(staged, *host_tick, message_count + 1, room as int),
            decreases staged.len() - message_count + if full { 0int } else { 1int },
        {
            let ghost at = message_count as int;
            proof {
                assert(staged.take(at + 1) =~= staged.take(at).push(staged[at]));
                lemma_groups_bits_push(*host_tick, staged.take(at), staged[at].0, staged[at].1);
                assert(staged[at] == (
                    self.next_send_messages@[at].0,
                    staged_view(self.next_send_messages@[at].1@),
                ));
            }
            let group = &self.next_send_messages[message_count as usize];
            let header = message_list_header::bit_len(message_count + 1);
            match group_bit_len(&last_written_tick, &group.0, &group.1) {
                Some(bits) => {
                    if header + body + bits <= room {
                        body = body + bits;
                        last_written_tick = group.0;
                        message_count += 1;
                    } else {
                        full = true;
                    }
                },
                None => {
                    full = true;
                },
            }
        }

        proof {
            lemma_fit_count(staged, *host_tick, room as int, message_count as int);
        }
        message_list_header::write(writer, message_count);

        let ghost head = writer@;
        let ghost chosen = staged.take(message_count as int);
        let mut last_written_tick: Tick = *host_tick;
        let mut output: Vec<(Tick, MessageId)> = Vec::new();
        let mut written: u16 = 0;
        assert(chosen.take(0) =~= Seq::<(Tick, Staged)>::empty());
        assert(head + groups_bits(*host_tick, chosen.take(0)) =~= head);
        assert(staged.skip(0) =~= staged);
        while written < message_count
            invariant
                written <= message_count <= staged.len(),
                chosen == staged.take(message_count as int),
                self.wf(),
                self.outgoing() == old(self).outgoing(),
                self.incoming() == old(self).incoming(),
                self.resend_timer() == old(self).resend_timer(),
                self.staged() == staged.skip(written as int),
                self.next_send_messages@.len() == staged.len() - written,
                writer.wf(),
                writer.reserved() == old(writer).reserved(),
                head.len() + groups_bits(*host_tick, chosen).len() + writer.reserved()
                    <= MTU_SIZE_BITS,
                writer@ == head + groups_bits(*host_tick, chosen.take(written as int)),
                last_written_tick == last_tick_of(*host_tick, chosen.take(written as int)),
                output@ == in_flight(chosen.take(written as int)),
            decreases message_count - written,
        {
            let ghost at = written as int;
            let ghost queue = self.next_send_messages@;
            proof {
                assert(chosen.take(at + 1) =~= chosen.take(at).push(chosen[at]));
                lemma_groups_bits_push(*host_tick, chosen.take(at), chosen[at].0, chosen[at].1);
                lemma_groups_bits_grow(*host_tick, chosen, at + 1, message_count as int);
                assert(chosen.take(message_count as int) =~= chosen);
                assert(self.staged()[0] == (queue[0].0, staged_view(queue[0].1@)));
                assert(self.staged()[0] == staged[at]);
                assert(chosen.take(at + 1).drop_last() =~= chosen.take(at));
            }
            let ghost waiting = self.staged();
            let popped = self.next_send_messages.pop_front();
            let (message_tick, messages) = popped.unwrap();
            assert(self.staged().len() == waiting.len() - 1);
            assert forall|i: int| 0 <= i < self.staged().len() implies self.staged()[i]
                == staged.skip(at + 1)[i] by {
                assert(self.next_send_messages@[i] == queue[i + 1]);
                assert(self.staged()[i] == waiting[i + 1]);
            }
            assert(self.staged() =~= staged.skip(at + 1));
            let message_ids = Self::write_message(
                writer,
                &last_written_tick,
                &message_tick,
                &messages,
            );
            last_written_tick = message_tick;
            let ghost prior = output@;
            let mut k: usize = 0;
            while k < message_ids.len()
                invariant
                    k <= message_ids@.len(),
                    0 <= at < chosen.len(),
                    message_ids@ == ids_of(chosen[at].1),
                    message_tick == chosen[at].0,
                    output@ == prior + Seq::new(
                        k as nat,
                        |j: int| (chosen[at].0, chosen[at].1[j].0),
                    ),
                decreases message_ids@.len() - k,
            {
                output.push((message_tick, message_ids[k]));
                k += 1;
                assert(output@ =~= prior + Seq::new(
                    k as nat,
                    |j: int| (chosen[at].0, chosen[at].1[j].0),
                ));
            }
            written += 1;
            assert(writer@ =~= head + groups_bits(*host_tick, chosen.take(written as int)));
        }
        assert(chosen.take(message_count as int) =~= chosen);
        assert(writer@ =~= before + message_list_bits(*host_tick, chosen));
        Some(output)
    }
}

/// What a list of received groups holds, as mathematical values.
pub open spec fn groups_view(groups: Seq<(Tick, Vec<(ShortMessageId, Message)>)>) -> Seq<
    (Tick, Arrivals),
> {
    Seq::new(groups.len(), |i: int| (groups[i].0, arrivals_view(groups[i].1@)))
}

/// Reads `count` messages, each behind its short id.
fn read_entries(reader: &mut BitReader, count: u64) -> (r: Result<
    Vec<(ShortMessageId, Message)>,
    SerdeErr,
>)
    requires
        old(reader).wf(),
    ensures
        final(reader).wf(),
        match r {
            Ok(entries) => parse_entries(old(reader)@, count as nat) == Some(
                (arrivals_view(entries@), final(reader)@),
            ),
            Err(_) => parse_entries(old(reader)@, count as nat) is None,
        },
{
    let ghost before = reader@;
    let mut entries: Vec<(ShortMessageId, Message)> = Vec::new();
    let mut i: u64 = 0;
    assert(arrivals_view(entries@) =~= Seq::empty());
    while i < count
        invariant
            i <= count,
            reader.wf(),
            before == old(reader)@,
            parse_entries(before, count as nat) == match parse_entries(
                reader@,
                (count - i) as nat,
            ) {
                Some((others, behind)) => Some((arrivals_view(entries@) + others, behind)),
                None => None,
            },
        decreases count - i,
    {
        let ghost here = reader@;
        let ghost held = arrivals_view(entries@);
        let short_msg_id = reader.read_bits(8)?;
        proof {
            lemma2_to64();
            lemma_bits_of_value_of(here.take(8));
        }
        let message = Message::read(reader)?;
        let ghost added = (short_msg_id as u8, message@);
        entries.push((short_msg_id as u8, message));
        i += 1;
        proof {
            assert(arrivals_view(entries@) =~= held.push(added));
            match parse_entries(reader@, (count - i) as nat) {
                Some((others, behind)) => {
                    assert(held + (seq![added] + others) =~= held.push(added) + others);
                },
                None => {},
            }
        }
    }
    assert(arrivals_view(entries@) + Seq::<(ShortMessageId, MessageView)>::empty()
        =~= arrivals_view(entries@));
    Ok(entries)
}

/// Reads the message groups of a packet that was sent at `remote_tick`.
pub fn parse_messages(reader: &mut BitReader, remote_tick: &Tick) -> (r: Result<
    Vec<(Tick, Vec<(ShortMessageId, Message)>)>,
    SerdeErr,
>)
    requires
        old(reader).wf(),
    ensures
        final(reader).wf(),
        match r {
            Ok(groups) => parse_message_list(old(reader)@, *remote_tick) == Some(
                (groups_view(groups@), final(reader)@),
            ),
            Err(_) => parse_message_list(old(reader)@, *remote_tick) is None,
        },
{
    let mut last_read_tick: Tick = *remote_tick;
    let count: u16 = message_list_header::read(reader)?;
    let ghost body = reader@;
    let mut groups: Vec<(Tick, Vec<(ShortMessageId, Message)>)> = Vec::new();
    let mut i: u16 = 0;
    assert(groups_view(groups@) =~= Seq::empty());
    while i < count
        invariant
            i <= count,
            reader.wf(),
            parse_message_list(old(reader)@, *remote_tick) == parse_groups(
                body,
                *remote_tick,
                count as nat,
            ),
            parse_groups(body, *remote_tick, count as nat) == match parse_groups(
                reader@,
                last_read_tick,
                (count - i) as nat,
            ) {
                Some((others, behind)) => Some((groups_view(groups@) + others, behind)),
                None => None,
            },
        decreases count - i,
    {
        let ghost held = groups_view(groups@);
        let group = ChannelTickBuffer::read_message(reader, &mut last_read_tick)?;
        let ghost added = (group.0, arrivals_view(group.1@));
        groups.push(group);
        i += 1;
        proof {
            assert(groups_view(groups@) =~= held.push(added));
            match parse_groups(reader@, last_read_tick, (count - i) as nat) {
                Some((others, behind)) => {
                    assert(held + (seq![added] + others) =~= held.push(added) + others);
                },
                None => {},
            }
        }
    }
    assert(groups_view(groups@) + Seq::<(Tick, Arrivals)>::empty() =~= groups_view(groups@));
    Ok(groups)
}

impl ChannelTickBuffer {
    /// Reads one group: the messages of the tick that lies as many steps
    /// before `last_read_tick` as the group says. That tick is where the
    /// next group counts from.
    fn read_message(reader: &mut BitReader, last_read_tick: &mut Tick) -> (r: Result<
        (Tick, Vec<(ShortMessageId, Message)>),
        SerdeErr,
    >)
        requires
            old(reader).wf(),
        ensures
            final(reader).wf(),
            match r {
                Ok(group) => {
                    &&& parse_group(old(reader)@, *old(last_read_tick)) == Some(
                        ((group.0, arrivals_view(group.1@)), final(reader)@),
                    )
                    &&& *final(last_read_tick) == group.0
                },
                Err(_) => parse_group(old(reader)@, *old(last_read_tick)) is None,
            },
    {
        let steps = read_varint(reader)?;
        if steps > u16::MAX as u64 {
            return Err(SerdeErr);
        }
        let remote_tick: Tick = last_read_tick.wrapping_sub(steps as u16);
        let ghost counted = reader@;
        proof {
            reader.lemma_len_bound();
        }
        let message_count = match read_varint(reader) {
            Ok(value) => value,
            Err(e) => {
                proof {
                    // a count past 64 bits asks for more than any packet holds
                    match varint_parse(counted, MAX_GROUPS as nat) {
                        Some((count, body)) => {
                            lemma_varint_parse_bound(counted, MAX_GROUPS as nat);
                            if parse_entries(body, count) is Some {
                                lemma_parse_entries_needs(body, count);
                            }
                        },
                        None => {},
                    }
                }
                return Err(e);
            },
        };
        let entries = read_entries(reader, message_count)?;
        *last_read_tick = remote_tick;
        Ok((remote_tick, entries))
    }

    /// Reads the message groups of a packet that was sent at `remote_tick`
    /// and takes their messages in. A packet that cannot be read to the
    /// end of its groups changes nothing.
    pub fn read_messages(
        &mut self,
        host_tick: &Tick,
        remote_tick: &Tick,
        reader: &mut BitReader,
    ) -> (r: Result<(), SerdeErr>)
        requires
            old(self).wf(),
            old(reader).wf(),
        ensures
            final(self).wf(),
            final(reader).wf(),
            final(self).outgoing() == old(self).outgoing(),
            final(self).staged() == old(self).staged(),
            final(self).resend_timer() == old(self).resend_timer(),
            match parse_message_list(old(reader)@, *remote_tick) {
                Some((groups, rest)) => {
                    &&& r is Ok
                    &&& final(reader)@ == rest
                    &&& final(self).incoming() == receive_groups(
                        old(self).incoming(),
                        *host_tick,
                        groups,
                    )
                },
                None => r is Err && final(self).incoming() == old(self).incoming(),
            },
    {
        let groups = parse_messages(reader, remote_tick)?;
        self.receive_messages(host_tick, groups);
        Ok(())
    }

    /// Takes in the messages of the groups of one packet, in their order.
    pub fn receive_messages(
        &mut self,
        host_tick: &Tick,
        groups: Vec<(Tick, Vec<(ShortMessageId, Message)>)>,
    )
        requires
            old(self).wf(),
        ensures
            final(self).wf(),
            final(self).outgoing() == old(self).outgoing(),
            final(self).staged() == old(self).staged(),
            final(self).resend_timer() == old(self).resend_timer(),
            final(self).incoming() == receive_groups(
                old(self).incoming(),
                *host_tick,
                groups_view(groups@),
            ),
    {
        let ghost all = groups@;
        let ghost start = self.incoming();
        assert(groups_view(all).skip(0) =~= groups_view(all));
        for group in outer: groups
            invariant
                outer.seq() == all,
                self.wf(),
                self.outgoing() == old(self).outgoing(),
                self.staged() == old(self).staged(),
                self.resend_timer() == old(self).resend_timer(),
                receive_groups(start, *host_tick, groups_view(all)) == receive_groups(
                    self.incoming(),
                    *host_tick,
                    groups_view(all).skip(outer.index() as int),
                ),
        {
            let ghost at = outer.index() as int;
            let ghost waiting = groups_view(all).skip(at);
            let ghost arrivals = arrivals_view(group.1@);
            let ghost entering = self.incoming();
            let (remote, entries) = group;
            let ghost every = entries@;
            proof {
                assert(waiting[0] == (remote, arrivals));
                assert(waiting.drop_first() =~= groups_view(all).skip(at + 1));
                assert(arrivals.skip(0) =~= arrivals);
            }
            for entry in inner: entries
                invariant
                    inner.seq() == every,
                    arrivals == arrivals_view(every),
                    self.wf(),
                    self.outgoing() == old(self).outgoing(),
                    self.staged() == old(self).staged(),
                    self.resend_timer() == old(self).resend_timer(),
                    receive_entries(entering, remote, *host_tick, arrivals) == receive_entries(
                        self.incoming(),
                        remote,
                        *host_tick,
                        arrivals.skip(inner.index() as int),
                    ),
            {
                let ghost left = arrivals.skip(inner.index() as int);
                proof {
                    assert(left[0] == (entry.0, entry.1@));
                    assert(left.drop_first() =~= arrivals.skip(inner.index() + 1));
                }
                let (short_msg_id, message) = entry;
                self.incoming_messages.push_back(&remote, host_tick, short_msg_id, message);
            }
        }
    }

    /// Every message that waits for `tick`, in the order of the short ids. The
    /// entries of older ticks are dropped on the way.
    pub fn collect_incoming_messages(&mut self, tick: Tick) -> (r: Vec<Message>)
        requires
            old(self).wf(),
        ensures
            final(self).wf(),
            final(self).outgoing() == old(self).outgoing(),
            final(self).staged() == old(self).staged(),
            final(self).resend_timer() == old(self).resend_timer(),
            messages_view(r@) == collected(old(self).incoming(), tick).0,
            final(self).incoming() == collected(old(self).incoming(), tick).1,
    {
        let mut output: Vec<Message> = Vec::new();
        let ghost start = self.incoming();
        assert(messages_view(output@) =~= Seq::empty());
        assert(Seq::<MessageView>::empty() + collected(start, tick).0 =~= collected(start, tick).0);
        loop
            invariant
                self.wf(),
                self.outgoing() == old(self).outgoing(),
                self.staged() == old(self).staged(),
                self.resend_timer() == old(self).resend_timer(),
                collected(start, tick).0 == messages_view(output@) + collected(
                    self.incoming(),
                    tick,
                ).0,
                collected(start, tick).1 == collected(self.incoming(), tick).1,
            ensures
                self.wf(),
                self.outgoing() == old(self).outgoing(),
                self.staged() == old(self).staged(),
                self.resend_timer() == old(self).resend_timer(),
                messages_view(output@) == collected(start, tick).0,
                self.incoming() == collected(start, tick).1,
            decreases pending(self.incoming()),
        {
            let ghost here = self.incoming();
            let ghost held = messages_view(output@);
            proof {
                lemma_collected_step(here, tick);
            }
            match self.incoming_messages.pop_front(tick) {
                Some(message) => {
                    let ghost added = message@;
                    output.push(message);
                    assert(messages_view(output@) =~= held.push(added));
                    assert(held + (seq![added] + collected(self.incoming(), tick).0)
                        =~= held.push(added) + collected(self.incoming(), tick).0);
                },
                None => {
                    assert(held + Seq::<MessageView>::empty() =~= held);
                    break ;
                },
            }
        }
        output
    }
}

/// What a sender writes for a host that can still use it is, once the
/// host has read it into an empty buffer, what that buffer holds and all
/// that it holds: an entry for each group, with each message under the low
/// byte of its id.
pub proof fn lemma_written_is_received(
    baseline: Tick,
    host_tick: Tick,
    written: Seq<(Tick, Staged)>,
    rest: Seq<bool>,
)
    requires
        written.len() <= u16::MAX,
        forall|i: int|
            0 <= i < written.len() ==> lengths_fit((#[trigger] written[i]).1) && written[i].1.len()
                <= u64::MAX,
        groups_receivable(groups_shortened(written), host_tick),
    ensures
        parse_message_list(message_list_bits(baseline, written) + rest, baseline) == Some(
            (groups_shortened(written), rest),
        ),
        receive_groups(Inbox::empty(), host_tick, groups_shortened(written)) == inbox_of(
            groups_shortened(written),
        ),
{
    lemma_message_list_round_trip(baseline, written, rest);
    lemma_receive_groups_into_empty(host_tick, groups_shortened(written));
}

/// What a list of messages holds, as mathematical values.
pub open spec fn messages_view(messages: Seq<Message>) -> Seq<MessageView> {
    Seq::new(messages.len(), |i: int| messages[i]@)
}

} // verus!
