//! A connection to one remote host: the packet numbers, the two timers
//! that keep it alive and tell when it is dead, and the channels of
//! tick-stamped messages.

use crate::ack_manager::{
    AckManager, PacketIndex, PacketNotice, REDUNDANT_PACKET_ACKS_SIZE, notices_for, still_waiting,
};
use crate::bits::{BitReader, BitWriter, MTU_SIZE_BITS, SerdeErr};
use crate::channel_tick_buffer::{TickBufferSettings, staged_round};
use crate::entity_action::{ComponentKind, EntityEvent, despawn_events, entity_despawn_events};
use crate::framing::Staged;
use crate::incoming::Inbox;
use crate::message_manager::{
    Flights, MAX_CHANNELS, MessageManager, Sections, after_notices, parse_sections, queues_after,
    read_sections, receive_sections, sections_bits, sections_carried, sections_view,
};
use crate::outgoing::History;
use crate::standard_header::{HEADER_BITS, PacketType, StandardHeader, header_bits, parse_header};
use crate::tick::{Tick, later_than, steps_forward};
use crate::timer::{Millis, Timer, elapsed};
use crate::wire::Serde;
use vstd::prelude::*;

verus! {

/// The spans of time that govern a connection.
#[derive(Clone, Copy, Debug)]
pub struct ConnectionConfig {
    /// The time to wait for word from the remote host before the
    /// connection counts as dead.
    pub disconnection_timeout_duration: Millis,
    /// The time after which a heartbeat is sent, if nothing else was.
    pub heartbeat_interval: Millis,
}

impl ConnectionConfig {
    /// The heartbeat comes more than twice in the time that the timeout
    /// takes, so that a live host is not dropped before two heartbeats in
    /// a row are lost.
    pub open spec fn valid(&self) -> bool {
        2 * self.heartbeat_interval < self.disconnection_timeout_duration
    }

    /// The configuration with these spans, where they go together.
    pub fn new(heartbeat_interval: Millis, disconnection_timeout_duration: Millis) -> (r: Option<
        ConnectionConfig,
    >)
        ensures
            r == if 2 * heartbeat_interval < disconnection_timeout_duration {
                Some(ConnectionConfig { disconnection_timeout_duration, heartbeat_interval })
            } else {
                None
            },
    {
        let config = ConnectionConfig { disconnection_timeout_duration, heartbeat_interval };
        if config.is_valid() {
            Some(config)
        } else {
            None
        }
    }

    /// Whether the spans go together.
    pub fn is_valid(&self) -> (r: bool)
        ensures
            r == self.valid(),
    {
        self.heartbeat_interval < self.disconnection_timeout_duration
            && self.heartbeat_interval < self.disconnection_timeout_duration
            - self.heartbeat_interval
    }
}

impl Default for ConnectionConfig {
    /// A heartbeat every three seconds and a timeout of ten.
    fn default() -> (r: ConnectionConfig)
        ensures
            r.valid(),
            r.heartbeat_interval == 3000,
            r.disconnection_timeout_duration == 10000,
    {
        ConnectionConfig { disconnection_timeout_duration: 10000, heartbeat_interval: 3000 }
    }
}

/// What a packet holds for a connection of `channels` channels: its header
/// and, in a data packet, the parts of its messages; and the bits behind
/// that.
pub open spec fn parse_packet(bits: Seq<bool>, baseline: Tick, channels: int) -> Option<
    (StandardHeader, Sections, Seq<bool>),
> {
    match parse_header(bits) {
        Some((header, rest)) => if header.packet_type == PacketType::Data {
            match parse_sections(rest, baseline, 0, channels) {
                Some((sections, behind)) => Some((header, sections, behind)),
                None => None,
            }
        } else {
            Some((header, Seq::empty(), rest))
        },
        None => None,
    }
}

/// A connection to a remote host.
pub struct BaseConnection {
    message_manager: MessageManager,
    heartbeat_timer: Timer,
    timeout_timer: Timer,
    ack_manager: AckManager,
}

impl BaseConnection {
    /// The channels of tick-stamped messages.
    pub closed spec fn messages(&self) -> MessageManager {
        self.message_manager
    }

    /// The timer that tells when a heartbeat is due.
    pub closed spec fn heartbeat_timer(&self) -> Timer {
        self.heartbeat_timer
    }

    /// The timer that tells when the remote host counts as dead.
    pub closed spec fn timeout_timer(&self) -> Timer {
        self.timeout_timer
    }

    /// The keeper of the packet numbers.
    pub closed spec fn acks(&self) -> AckManager {
        self.ack_manager
    }

    /// The channels are valid, and the heartbeat comes more than twice in
    /// the time that the timeout takes.
    pub open spec fn wf(&self) -> bool {
        &&& self.messages().wf()
        &&& 2 * self.heartbeat_timer().duration() < self.timeout_timer().duration()
    }

    /// A connection that was heard from, and has sent, at `now`, with one
    /// channel for each of the settings.
    pub fn new(
        connection_config: &ConnectionConfig,
        settings: &Vec<TickBufferSettings>,
        now: Millis,
    ) -> (r: BaseConnection)
        requires
            connection_config.valid(),
            settings@.len() <= MAX_CHANNELS,
        ensures
            r.wf(),
            r.heartbeat_timer() == Timer::new_spec(connection_config.heartbeat_interval, now),
            r.timeout_timer() == Timer::new_spec(
                connection_config.disconnection_timeout_duration,
                now,
            ),
            r.acks().next_index() == 0,
            !r.acks().heard_any(),
            r.acks().sent() == Seq::<PacketIndex>::empty(),
            r.messages().flights() == Flights::empty(),
            r.messages().channels().len() == settings@.len(),
            forall|i: int|
                0 <= i < settings@.len() ==> {
                    &&& (#[trigger] r.messages().channels()[i]).outgoing() == History::empty()
                    &&& r.messages().channels()[i].staged() == Seq::<(Tick, Staged)>::empty()
                    &&& r.messages().channels()[i].incoming() == Inbox::empty()
                    &&& r.messages().channels()[i].resend_timer() == Timer::new_spec(
                        settings@[i].resend_interval,
                        now,
                    )
                },
    {
        proof {
            Timer::lemma_new_spec(connection_config.heartbeat_interval, now);
            Timer::lemma_new_spec(connection_config.disconnection_timeout_duration, now);
        }
        BaseConnection {
            heartbeat_timer: Timer::new(connection_config.heartbeat_interval, now),
            timeout_timer: Timer::new(connection_config.disconnection_timeout_duration, now),
            ack_manager: AckManager::new(),
            message_manager: MessageManager::new(settings, now),
        }
    }

    /// The channels of tick-stamped messages, to read from.
    pub fn message_manager(&self) -> (r: &MessageManager)
        ensures
            *r == self.messages(),
    {
        &self.message_manager
    }

    /// The channels of tick-stamped messages, to work on.
    pub fn message_manager_mut(&mut self) -> (r: &mut MessageManager)
        ensures
            *r == old(self).messages(),
            final(self).messages() == *final(r),
            final(self).heartbeat_timer() == old(self).heartbeat_timer(),
            final(self).timeout_timer() == old(self).timeout_timer(),
            final(self).acks() == old(self).acks(),
    {
        &mut self.message_manager
    }

    /// A host that was heard from is not dropped before twice the
    /// heartbeat interval has passed: two heartbeats in a row must be lost
    /// first.
    pub proof fn lemma_survives_two_heartbeats(&self, now: Millis)
        requires
            self.wf(),
            !self.timeout_timer().forced(),
            elapsed(self.timeout_timer().last(), now) <= 2 * self.heartbeat_timer().duration(),
        ensures
            !self.timeout_timer().rings(now),
    {
    }

    /// The events that the connection gives when it lets go of all entities
    /// of the remote host. Each entity comes with the kinds of the
    /// components that the world takes from it.
    pub fn despawn_all_remote_entities<E: Copy>(
        &self,
        remote_entities: &Vec<(E, Vec<ComponentKind>)>,
    ) -> (r: Vec<EntityEvent<E>>)
        ensures
            r@ == despawn_events(remote_entities@),
    {
        let mut output: Vec<EntityEvent<E>> = Vec::new();
        let mut i: usize = 0;
        assert(remote_entities@.take(0) =~= Seq::empty());
        while i < remote_entities.len()
            invariant
                i <= remote_entities@.len(),
                output@ == despawn_events(remote_entities@.take(i as int)),
            decreases remote_entities@.len() - i,
        {
            let entity: E = remote_entities[i].0;
            let kinds = &remote_entities[i].1;
            let ghost before = output@;
            // an event for each component that goes
            let mut k: usize = 0;
            while k < kinds.len()
                invariant
                    k <= kinds@.len(),
                    output@ == before + Seq::new(
                        k as nat,
                        |j: int| EntityEvent::RemoveComponent(entity, kinds@[j]),
                    ),
                decreases kinds@.len() - k,
            {
                output.push(EntityEvent::RemoveComponent(entity, kinds[k]));
                k += 1;
                assert(output@ =~= before + Seq::new(
                    k as nat,
                    |j: int| EntityEvent::RemoveComponent(entity, kinds@[j]),
                ));
            }
            // and one for the entity
            output.push(EntityEvent::DespawnEntity(entity));
            proof {
                assert(remote_entities@.take(i + 1).drop_last() =~= remote_entities@.take(
                    i as int,
                ));
                assert(output@ =~= before + entity_despawn_events(entity, kinds@));
            }
            i += 1;
        }
        assert(remote_entities@.take(i as int) =~= remote_entities@);
        output
    }

    // Heartbeats

    /// Records that a packet was sent at `now`, so that no heartbeat is
    /// needed for a while.
    pub fn mark_sent(&mut self, now: Millis)
        ensures
            final(self).heartbeat_timer() == Timer::new_spec(
                old(self).heartbeat_timer().duration(),
                now,
            ),
            final(self).timeout_timer() == old(self).timeout_timer(),
            final(self).acks() == old(self).acks(),
            final(self).messages() == old(self).messages(),
    {
        self.heartbeat_timer.reset(now)
    }

    /// Whether a heartbeat should be sent at `now`: nothing was sent for
    /// the heartbeat interval.
    pub fn should_send_heartbeat(&self, now: Millis) -> (r: bool)
        ensures
            r == self.heartbeat_timer().rings(now),
    {
        self.heartbeat_timer.ringing(now)
    }

    // Timeouts

    /// Records that a packet of the remote host came in at `now`.
    pub fn mark_heard(&mut self, now: Millis)
        ensures
            final(self).timeout_timer() == Timer::new_spec(
                old(self).timeout_timer().duration(),
                now,
            ),
            final(self).heartbeat_timer() == old(self).heartbeat_timer(),
            final(self).acks() == old(self).acks(),
            final(self).messages() == old(self).messages(),
    {
        self.timeout_timer.reset(now)
    }

    /// Whether the connection should be dropped at `now`: nothing came in
    /// for the timeout's duration.
    pub fn should_drop(&self, now: Millis) -> (r: bool)
        ensures
            r == self.timeout_timer().rings(now),
    {
        self.timeout_timer.ringing(now)
    }

    // Acks & Headers

    /// Takes note of the header of a packet that came in. For every own
    /// packet that the header reports on, a notice is given, and the
    /// messages of a delivered packet leave the histories of their
    /// channels.
    pub fn process_incoming_header(&mut self, header: &StandardHeader) -> (r: Vec<PacketNotice>)
        requires
            old(self).wf(),
        ensures
            final(self).wf(),
            r@ == notices_for(old(self).acks().sent(), *header),
            final(self).acks().sent() == still_waiting(old(self).acks().sent(), *header),
            final(self).acks().next_index() == old(self).acks().next_index(),
            final(self).acks().heard_any(),
            final(self).acks().last_received() == if !old(self).acks().heard_any() || later_than(
                header.packet_index,
                old(self).acks().last_received(),
            ) {
                header.packet_index
            } else {
                old(self).acks().last_received()
            },
            forall|index: PacketIndex|
                #[trigger] final(self).acks().saw(index) == ((index == header.packet_index || old(
                    self,
                ).acks().saw(index)) && steps_forward(index, final(self).acks().last_received())
                    <= REDUNDANT_PACKET_ACKS_SIZE),
            (final(self).messages().histories(), final(self).messages().flights())
                == after_notices(
                old(self).messages().histories(),
                old(self).messages().flights(),
                r@,
            ),
            final(self).messages().channels().len() == old(self).messages().channels().len(),
            final(self).messages().queues() == old(self).messages().queues(),
            final(self).messages().inboxes() == old(self).messages().inboxes(),
            final(self).messages().timers() == old(self).messages().timers(),
            final(self).heartbeat_timer() == old(self).heartbeat_timer(),
            final(self).timeout_timer() == old(self).timeout_timer(),
    {
        let notices = self.ack_manager.process_incoming_header(header);
        let ghost acked = self.ack_manager;
        let ghost all = notices@;
        let ghost histories = self.message_manager.histories();
        let ghost flights = self.message_manager.flights();
        let mut n: usize = 0;
        assert(all.skip(0) =~= all);
        while n < notices.len()
            invariant
                n <= all.len(),
                notices@ == all,
                self.wf(),
                self.ack_manager == acked,
                self.message_manager.channels().len() == old(self).messages().channels().len(),
                self.message_manager.queues() == old(self).messages().queues(),
                self.message_manager.inboxes() == old(self).messages().inboxes(),
                self.message_manager.timers() == old(self).messages().timers(),
                self.heartbeat_timer == old(self).heartbeat_timer,
                self.timeout_timer == old(self).timeout_timer,
                after_notices(histories, flights, all) == after_notices(
                    self.message_manager.histories(),
                    self.message_manager.flights(),
                    all.skip(n as int),
                ),
            decreases all.len() - n,
        {
            proof {
                assert(all.skip(n as int)[0] == notices@[n as int]);
                assert(all.skip(n as int).drop_first() =~= all.skip(n + 1));
            }
            match notices[n] {
                PacketNotice::Delivered(index) => {
                    self.message_manager.notify_packet_delivered(index);
                },
                PacketNotice::Dropped(index) => {
                    self.message_manager.notify_packet_dropped(index);
                },
            }
            n += 1;
        }
        notices
    }

    /// Writes the header of the next packet to go out, which the keeper of
    /// the packet numbers then waits to hear of.
    pub fn write_outgoing_header(&mut self, packet_type: PacketType, writer: &mut BitWriter)
        requires
            old(writer).wf(),
            old(writer).room() >= HEADER_BITS,
        ensures
            final(writer).wf(),
            final(writer).reserved() == old(writer).reserved(),
            final(writer)@ == old(writer)@ + header_bits(
                StandardHeader {
                    packet_type,
                    packet_index: old(self).acks().next_index(),
                    last_remote_index: old(self).acks().last_received(),
                    ack_bitfield: old(self).acks().received_field(),
                    extra: 0,
                },
            ),
            final(self).acks().next_index() == (old(self).acks().next_index() + 1) % 0x1_0000,
            final(self).acks().sent() == old(self).acks().sent().push(
                old(self).acks().next_index(),
            ),
            final(self).acks().last_received() == old(self).acks().last_received(),
            final(self).acks().received_field() == old(self).acks().received_field(),
            final(self).acks().heard_any() == old(self).acks().heard_any(),
            final(self).messages() == old(self).messages(),
            final(self).heartbeat_timer() == old(self).heartbeat_timer(),
            final(self).timeout_timer() == old(self).timeout_timer(),
    {
        let header = self.ack_manager.next_outgoing_packet_header(packet_type);
        header.ser(writer);
    }

    /// The number of the next packet to go out.
    pub fn next_packet_index(&self) -> (r: PacketIndex)
        ensures
            r == self.acks().next_index(),
    {
        self.ack_manager.next_sender_packet_index()
    }

    /// Stages the held messages of every channel for which a round is due
    /// at `now`.
    pub fn collect_outgoing_messages(
        &mut self,
        now: Millis,
        client_sending_tick: &Tick,
        server_receivable_tick: &Tick,
    )
        requires
            old(self).wf(),
        ensures
            final(self).wf(),
            final(self).messages().channels().len() == old(self).messages().channels().len(),
            final(self).messages().flights() == old(self).messages().flights(),
            forall|i: int|
                0 <= i < final(self).messages().channels().len() ==> staged_round(
                    old(self).messages().channels()[i],
                    #[trigger] final(self).messages().channels()[i],
                    now,
                    *client_sending_tick,
                    *server_receivable_tick,
                ),
            final(self).acks() == old(self).acks(),
            final(self).heartbeat_timer() == old(self).heartbeat_timer(),
            final(self).timeout_timer() == old(self).timeout_timer(),
    {
        self.message_manager.collect_outgoing_messages(
            now,
            client_sending_tick,
            server_receivable_tick,
        );
    }

    /// Writes the messages of a data packet behind its header: for each
    /// channel in turn as many of its staged groups as fit, and the bit
    /// that ends the messages. The messages written are on the way under
    /// `packet_index` from then on. It says whether any message was
    /// written. What else the packet is to hold, the caller writes behind.
    pub fn write_outgoing_packet(
        &mut self,
        writer: &mut BitWriter,
        packet_index: PacketIndex,
        host_tick: &Tick,
    ) -> (has_written: bool)
        requires
            old(self).wf(),
            old(writer).wf(),
            old(writer).room() >= 1,
        ensures
            final(self).wf(),
            final(writer).wf(),
            final(writer).reserved() == old(writer).reserved(),
            final(writer)@.len() + final(writer).reserved() <= MTU_SIZE_BITS,
            final(self).acks() == old(self).acks(),
            final(self).heartbeat_timer() == old(self).heartbeat_timer(),
            final(self).timeout_timer() == old(self).timeout_timer(),
            final(self).messages().channels().len() == old(self).messages().channels().len(),
            final(self).messages().histories() == old(self).messages().histories(),
            final(self).messages().inboxes() == old(self).messages().inboxes(),
            final(self).messages().timers() == old(self).messages().timers(),
            ({
                let queues = old(self).messages().queues();
                let room = old(writer).room() - 1;
                let carried = sections_carried(queues, *host_tick, room, queues.len() as int);
                &&& final(writer)@ == old(writer)@ + sections_bits(
                    queues,
                    *host_tick,
                    room,
                    queues.len() as int,
                ) + seq![false]
                &&& final(self).messages().queues() == queues_after(queues, *host_tick, room)
                &&& has_written == (carried.len() > 0)
                &&& final(self).messages().flights() == if has_written {
                    old(self).messages().flights().push((packet_index, carried))
                } else {
                    old(self).messages().flights()
                }
            }),
    {
        self.message_manager.write_messages(writer, packet_index, host_tick)
    }

    /// Takes in a packet that arrived at `now`, while the host is at
    /// `host_tick`, from a sender that was at `remote_tick`. A packet that
    /// cannot be read changes nothing. Of any other, the header is taken
    /// note of, the remote host counts as heard from, and the messages of
    /// a data packet join those that wait for their tick. What follows the
    /// header of a packet of another type is left to the caller.
    pub fn process_incoming_packet(
        &mut self,
        now: Millis,
        host_tick: &Tick,
        remote_tick: &Tick,
        reader: &mut BitReader,
    ) -> (r: Result<(StandardHeader, Vec<PacketNotice>), SerdeErr>)
        requires
            old(self).wf(),
            old(reader).wf(),
        ensures
            final(self).wf(),
            final(reader).wf(),
            final(self).heartbeat_timer() == old(self).heartbeat_timer(),
            final(self).messages().channels().len() == old(self).messages().channels().len(),
            final(self).messages().queues() == old(self).messages().queues(),
            final(self).messages().timers() == old(self).messages().timers(),
            match parse_packet(
                old(reader)@,
                *remote_tick,
                old(self).messages().channels().len() as int,
            ) {
                Some((header, sections, rest)) => {
                    &&& r matches Ok(heard)
                    &&& heard.0 == header
                    &&& heard.1@ == notices_for(old(self).acks().sent(), header)
                    &&& final(reader)@ == rest
                    &&& final(self).timeout_timer() == Timer::new_spec(
                        old(self).timeout_timer().duration(),
                        now,
                    )
                    &&& final(self).acks().sent() == still_waiting(
                        old(self).acks().sent(),
                        header,
                    )
                    &&& final(self).acks().next_index() == old(self).acks().next_index()
                    &&& final(self).acks().heard_any()
                    &&& final(self).acks().last_received() == if !old(self).acks().heard_any()
                        || later_than(header.packet_index, old(self).acks().last_received()) {
                        header.packet_index
                    } else {
                        old(self).acks().last_received()
                    }
                    &&& forall|index: PacketIndex|
                        #[trigger] final(self).acks().saw(index) == ((index == header.packet_index
                            || old(self).acks().saw(index)) && steps_forward(
                            index,
                            final(self).acks().last_received(),
                        ) <= REDUNDANT_PACKET_ACKS_SIZE)
                    &&& (final(self).messages().histories(), final(self).messages().flights())
                        == after_notices(
                        old(self).messages().histories(),
                        old(self).messages().flights(),
                        heard.1@,
                    )
                    &&& final(self).messages().inboxes() == receive_sections(
                        old(self).messages().inboxes(),
                        *host_tick,
                        sections,
                    )
                },
                None => {
                    &&& r is Err
                    &&& final(self).timeout_timer() == old(self).timeout_timer()
                    &&& final(self).acks() == old(self).acks()
                    &&& final(self).messages() == old(self).messages()
                },
            },
    {
        let header = StandardHeader::de(reader)?;
        let sections = if header.packet_type == PacketType::Data {
            read_sections(reader, remote_tick, self.message_manager.channel_count())?
        } else {
            let sections = Vec::new();
            assert(sections_view(sections@) =~= Seq::empty());
            sections
        };
        proof {
            Timer::lemma_new_spec(self.timeout_timer.duration(), now);
        }
        self.mark_heard(now);
        let notices = self.process_incoming_header(&header);
        self.message_manager.receive_sections(host_tick, sections);
        Ok((header, notices))
    }
}

} // verus!
