//! The receiver's buffer of messages that wait for their tick, oldest first.

use crate::message::{Message, MessageView, ShortMessageId};
use crate::tick::{
    Tick, at_or_later_than, later_than, lemma_later_than_one_way, lemma_order_by_offset,
    lemma_steps_chain, lemma_steps_round_trip, sequence_greater_than, steps_forward,
};
use std::collections::{HashMap, VecDeque};
use vstd::prelude::*;

verus! {

/// The messages of one group as they stand in a packet, each with its
/// short id.
pub type Arrivals = Seq<(ShortMessageId, MessageView)>;

/// The messages of one tick that wait, by their short ids.
pub type Waiting = Map<ShortMessageId, MessageView>;

/// The buffer as mathematical values. Index 0 is the front, the oldest tick.
pub type Inbox = Seq<(Tick, Waiting)>;

/// The ticks of a buffer, front to back.
pub open spec fn inbox_ticks(inbox: Inbox) -> Seq<Tick> {
    Seq::new(inbox.len(), |i: int| inbox[i].0)
}

/// Every tick comes after all those in front of it.
pub open spec fn ascending(ticks: Seq<Tick>) -> bool {
    forall|i: int, j: int| 0 <= i < j < ticks.len() ==> later_than(ticks[j], ticks[i])
}

/// The least short id from `from` on under which a message waits; 256
/// where there is none.
pub open spec fn least_id_from(waiting: Waiting, from: int) -> int
    decreases 256 - from,
{
    if from >= 256 {
        256
    } else if waiting.contains_key(from as u8) {
        from
    } else {
        least_id_from(waiting, from + 1)
    }
}

/// Whether any message waits.
pub open spec fn has_message(waiting: Waiting) -> bool {
    least_id_from(waiting, 0) < 256
}

/// The least short id under which a message waits.
pub open spec fn least_id(waiting: Waiting) -> ShortMessageId {
    least_id_from(waiting, 0) as u8
}

/// The messages that wait under the short ids from `from` on, in the
/// order of their ids.
pub open spec fn messages_from(waiting: Waiting, from: int) -> Seq<MessageView>
    decreases 256 - from,
{
    if from >= 256 {
        Seq::empty()
    } else if waiting.contains_key(from as u8) {
        seq![waiting[from as u8]] + messages_from(waiting, from + 1)
    } else {
        messages_from(waiting, from + 1)
    }
}

/// The messages of one tick's entry, in the order of their short ids.
pub open spec fn messages_of(waiting: Waiting) -> Seq<MessageView> {
    messages_from(waiting, 0)
}

/// The least id lies at or behind where the search began; no message waits
/// under an id between the two; and one waits under the least id, if that
/// is an id at all.
pub proof fn lemma_least_id_from(waiting: Waiting, from: int)
    requires
        0 <= from <= 256,
    ensures
        from <= least_id_from(waiting, from) <= 256,
        forall|id: u8| from <= id < least_id_from(waiting, from) ==> !waiting.contains_key(id),
        least_id_from(waiting, from) < 256 ==> waiting.contains_key(
            least_id_from(waiting, from) as u8,
        ),
    decreases 256 - from,
{
    if from < 256 && !waiting.contains_key(from as u8) {
        lemma_least_id_from(waiting, from + 1);
    }
}

/// A message waits exactly where one waits under some short id.
pub proof fn lemma_has_message(waiting: Waiting)
    ensures
        has_message(waiting) <==> exists|id: u8| waiting.contains_key(id),
        !has_message(waiting) <==> waiting.dom() =~= Set::<u8>::empty(),
        has_message(waiting) ==> waiting.contains_key(least_id(waiting)),
{
    lemma_least_id_from(waiting, 0);
    if has_message(waiting) {
        assert(waiting.contains_key(least_id(waiting)));
    }
}

/// The messages that wait behind the least id are those that wait once
/// the message under the least id is gone.
proof fn lemma_messages_from_without(waiting: Waiting, gone: ShortMessageId, from: int)
    requires
        0 <= from <= 256,
        gone < from,
    ensures
        messages_from(waiting.remove(gone), from) == messages_from(waiting, from),
    decreases 256 - from,
{
    if from < 256 {
        lemma_messages_from_without(waiting, gone, from + 1);
    }
}

/// Where no message waits under the ids from `from` up to `upto`, the
/// messages from `from` on are those from `upto` on.
proof fn lemma_messages_from_skip(waiting: Waiting, from: int, upto: int)
    requires
        0 <= from <= upto <= 256,
        forall|id: u8| from <= id < upto ==> !waiting.contains_key(id),
    ensures
        messages_from(waiting, from) == messages_from(waiting, upto),
    decreases upto - from,
{
    if from < upto {
        assert(!waiting.contains_key(from as u8));
        lemma_messages_from_skip(waiting, from + 1, upto);
    }
}

/// The messages that wait are the one under the least id, followed by
/// those that wait once it is gone.
pub proof fn lemma_messages_of_step(waiting: Waiting)
    requires
        has_message(waiting),
    ensures
        messages_of(waiting) == seq![waiting[least_id(waiting)]] + messages_of(
            waiting.remove(least_id(waiting)),
        ),
        messages_of(waiting).len() == 1 + messages_of(waiting.remove(least_id(waiting))).len(),
{
    let least = least_id(waiting);
    let rest = waiting.remove(least);
    lemma_least_id_from(waiting, 0);
    lemma_messages_from_skip(waiting, 0, least as int);
    assert forall|id: u8| 0 <= id < least + 1 implies !rest.contains_key(id) by {}
    lemma_messages_from_skip(rest, 0, least + 1);
    lemma_messages_from_without(waiting, least, least + 1);
}

/// Where a scan from the back for `tick` stops, counted as the number of
/// entries in front of the insertion point: just behind the backmost entry
/// that has this tick or an older one, or 0 where there is none.
pub open spec fn slot_for(ticks: Seq<Tick>, tick: Tick) -> int
    decreases ticks.len(),
{
    if ticks.len() == 0 || ticks.last() == tick || later_than(tick, ticks.last()) {
        ticks.len() as int
    } else {
        slot_for(ticks.drop_last(), tick)
    }
}

/// Whether the scan from the back found an entry of exactly this tick.
pub open spec fn joins_entry(inbox: Inbox, tick: Tick) -> bool {
    let slot = slot_for(inbox_ticks(inbox), tick);
    slot > 0 && inbox[slot - 1].0 == tick
}

/// Whether a message is taken in: it must be for a tick that the host has
/// yet to run, and not a second copy of one that waits already.
pub open spec fn accepts(inbox: Inbox, remote: Tick, host: Tick, id: ShortMessageId) -> bool {
    &&& later_than(remote, host)
    &&& joins_entry(inbox, remote) ==> !inbox[slot_for(inbox_ticks(inbox), remote)
        - 1].1.contains_key(id)
}

/// The buffer after a message arrived.
pub open spec fn after_receive(
    inbox: Inbox,
    remote: Tick,
    host: Tick,
    id: ShortMessageId,
    message: MessageView,
) -> Inbox {
    let slot = slot_for(inbox_ticks(inbox), remote);
    if !accepts(inbox, remote, host, id) {
        inbox
    } else if joins_entry(inbox, remote) {
        inbox.update(slot - 1, (remote, inbox[slot - 1].1.insert(id, message)))
    } else {
        inbox.insert(slot, (remote, Waiting::empty().insert(id, message)))
    }
}

/// The buffer after the messages of one group arrived, in their order.
pub open spec fn receive_entries(
    inbox: Inbox,
    remote: Tick,
    host: Tick,
    arrivals: Arrivals,
) -> Inbox
    decreases arrivals.len(),
{
    if arrivals.len() == 0 {
        inbox
    } else {
        receive_entries(
            after_receive(inbox, remote, host, arrivals[0].0, arrivals[0].1),
            remote,
            host,
            arrivals.drop_first(),
        )
    }
}

/// The buffer after the groups of one packet arrived, in their order.
pub open spec fn receive_groups(inbox: Inbox, host: Tick, groups: Seq<(Tick, Arrivals)>) -> Inbox
    decreases groups.len(),
{
    if groups.len() == 0 {
        inbox
    } else {
        receive_groups(
            receive_entries(inbox, groups[0].0, host, groups[0].1),
            host,
            groups.drop_first(),
        )
    }
}

/// How many entries at the front are older than `tick`.
pub open spec fn stale_count(ticks: Seq<Tick>, tick: Tick) -> int
    decreases ticks.len(),
{
    if ticks.len() == 0 || !later_than(tick, ticks[0]) {
        0
    } else {
        1 + stale_count(ticks.drop_first(), tick)
    }
}

/// The message that comes out next for `tick`: that under the least short
/// id in the first entry that is not older than `tick`, where that entry
/// is of `tick`.
pub open spec fn next_message(inbox: Inbox, tick: Tick) -> Option<MessageView> {
    let fresh = inbox.skip(stale_count(inbox_ticks(inbox), tick));
    if fresh.len() > 0 && fresh[0].0 == tick && has_message(fresh[0].1) {
        Some(fresh[0].1[least_id(fresh[0].1)])
    } else {
        None
    }
}

/// The buffer after one message was asked for: the older entries are gone,
/// and so is the message that came out, with its entry where it was the last.
pub open spec fn after_pop(inbox: Inbox, tick: Tick) -> Inbox {
    let fresh = inbox.skip(stale_count(inbox_ticks(inbox), tick));
    if fresh.len() > 0 && fresh[0].0 == tick && has_message(fresh[0].1) {
        let rest = fresh[0].1.remove(least_id(fresh[0].1));
        if has_message(rest) {
            fresh.update(0, (tick, rest))
        } else {
            fresh.drop_first()
        }
    } else {
        fresh
    }
}

/// How many steps of taking messages out a buffer can still make: one for
/// each entry and one for each message.
pub open spec fn pending(inbox: Inbox) -> nat
    decreases inbox.len(),
{
    if inbox.len() == 0 {
        0
    } else {
        1 + messages_of(inbox[0].1).len() + pending(inbox.drop_first())
    }
}

/// What asking for the messages of `tick` until none comes gives: the
/// messages, and the buffer that is left. The entries older than `tick`
/// at the front go; where the first that stays is of `tick`, its messages
/// come out and the same is done behind it.
pub open spec fn collected(inbox: Inbox, tick: Tick) -> (Seq<MessageView>, Inbox)
    decreases inbox.len(),
    via collected_decreases
{
    let fresh = inbox.skip(stale_count(inbox_ticks(inbox), tick));
    if fresh.len() > 0 && fresh[0].0 == tick {
        let behind = collected(fresh.drop_first(), tick);
        (messages_of(fresh[0].1) + behind.0, behind.1)
    } else {
        (Seq::empty(), fresh)
    }
}

#[via_fn]
proof fn collected_decreases(inbox: Inbox, tick: Tick) {
    lemma_stale_count(inbox_ticks(inbox), tick);
}

/// Dropping entries from the front leaves fewer steps.
pub proof fn lemma_pending_skip(inbox: Inbox, count: int)
    requires
        0 <= count <= inbox.len(),
    ensures
        pending(inbox.skip(count)) <= pending(inbox),
        count > 0 ==> pending(inbox.skip(count)) < pending(inbox),
    decreases count,
{
    if count == 0 {
        assert(inbox.skip(0) =~= inbox);
    } else {
        lemma_pending_skip(inbox.drop_first(), count - 1);
        assert(inbox.drop_first().skip(count - 1) =~= inbox.skip(count));
    }
}

/// One message taken out is the first of those that asking until none
/// comes gives, and the rest is what it gives for the buffer that is left.
/// Where no message comes out, the buffer that is left is the final one.
pub proof fn lemma_collected_step(inbox: Inbox, tick: Tick)
    requires
        inbox_wf(inbox),
    ensures
        match next_message(inbox, tick) {
            Some(message) => {
                &&& collected(inbox, tick).0 == seq![message] + collected(
                    after_pop(inbox, tick),
                    tick,
                ).0
                &&& collected(inbox, tick).1 == collected(after_pop(inbox, tick), tick).1
                &&& pending(after_pop(inbox, tick)) < pending(inbox)
            },
            None => {
                &&& collected(inbox, tick).0 == Seq::<MessageView>::empty()
                &&& collected(inbox, tick).1 == after_pop(inbox, tick)
                &&& collected(after_pop(inbox, tick), tick) == (
                    Seq::<MessageView>::empty(),
                    after_pop(inbox, tick),
                )
            },
        },
{
    let ticks = inbox_ticks(inbox);
    let stale = stale_count(ticks, tick);
    lemma_stale_count(ticks, tick);
    let fresh = inbox.skip(stale);
    lemma_pending_skip(inbox, stale);
    let left = after_pop(inbox, tick);
    lemma_later_than_one_way(tick, tick);
    if fresh.len() > 0 && fresh[0].0 == tick {
        assert(fresh[0] == inbox[stale]);
        let waiting = fresh[0].1;
        let rest = waiting.remove(least_id(waiting));
        assert(has_message(waiting));
        lemma_messages_of_step(waiting);
        assert(pending(fresh) == 1 + messages_of(waiting).len() + pending(fresh.drop_first()));
        if has_message(rest) {
            lemma_stale_count_unique(inbox_ticks(left), tick, 0);
            assert(left.skip(0) =~= left);
            assert(left.drop_first() =~= fresh.drop_first());
            assert(pending(left) == 1 + messages_of(rest).len() + pending(left.drop_first()));
            assert(collected(inbox, tick).0 =~= seq![waiting[least_id(waiting)]] + collected(
                left,
                tick,
            ).0);
        } else {
            assert(messages_from(rest, 0) =~= Seq::<MessageView>::empty()) by {
                lemma_least_id_from(rest, 0);
                lemma_messages_from_skip(rest, 0, 256);
            }
            assert(messages_of(waiting) =~= seq![waiting[least_id(waiting)]]);
        }
    } else {
        if fresh.len() > 0 {
            assert(fresh[0] == inbox[stale]);
            assert(inbox_ticks(left)[0] == ticks[stale]);
        }
        lemma_stale_count_unique(inbox_ticks(left), tick, 0);
        assert(left.skip(0) =~= left);
    }
}

/// The slot lies within the buffer or at its end; every entry from it on
/// is newer than the tick, and the entry in front of it, if there is one,
/// has the tick or an older one.
pub proof fn lemma_slot_for(ticks: Seq<Tick>, tick: Tick)
    ensures
        0 <= slot_for(ticks, tick) <= ticks.len(),
        forall|j: int|
            slot_for(ticks, tick) <= j < ticks.len() ==> ticks[j] != tick && !later_than(
                tick,
                ticks[j],
            ),
        slot_for(ticks, tick) > 0 ==> {
            let at = slot_for(ticks, tick) - 1;
            ticks[at] == tick || later_than(tick, ticks[at])
        },
    decreases ticks.len(),
{
    if !(ticks.len() == 0 || ticks.last() == tick || later_than(tick, ticks.last())) {
        let rest = ticks.drop_last();
        lemma_slot_for(rest, tick);
        assert forall|j: int| slot_for(ticks, tick) <= j < ticks.len() implies ticks[j] != tick
            && !later_than(tick, ticks[j]) by {
            if j < rest.len() {
                assert(ticks[j] == rest[j]);
            }
        }
    }
}

/// The slot is the only position with an entry at or before the tick right
/// in front of it, or none in front at all, and only newer ones behind.
pub proof fn lemma_slot_for_unique(ticks: Seq<Tick>, tick: Tick, slot: int)
    requires
        0 <= slot <= ticks.len(),
        forall|j: int| slot <= j < ticks.len() ==> ticks[j] != tick && !later_than(tick, ticks[j]),
        slot > 0 ==> ticks[slot - 1] == tick || later_than(tick, ticks[slot - 1]),
    ensures
        slot_for(ticks, tick) == slot,
{
    lemma_slot_for(ticks, tick);
}

/// The entries that are counted are older than the tick, and the first
/// entry behind them, if there is one, is not.
pub proof fn lemma_stale_count(ticks: Seq<Tick>, tick: Tick)
    ensures
        0 <= stale_count(ticks, tick) <= ticks.len(),
        forall|j: int| 0 <= j < stale_count(ticks, tick) ==> later_than(tick, ticks[j]),
        stale_count(ticks, tick) < ticks.len() ==> !later_than(
            tick,
            ticks[stale_count(ticks, tick)],
        ),
    decreases ticks.len(),
{
    if !(ticks.len() == 0 || !later_than(tick, ticks[0])) {
        let rest = ticks.drop_first();
        lemma_stale_count(rest, tick);
        assert forall|j: int| 0 <= j < stale_count(ticks, tick) implies later_than(
            tick,
            ticks[j],
        ) by {
            if j > 0 {
                assert(ticks[j] == rest[j - 1]);
            }
        }
    }
}

/// The count is the only length of a front run of older entries that ends
/// at an entry which is not older, or at the end.
pub proof fn lemma_stale_count_unique(ticks: Seq<Tick>, tick: Tick, count: int)
    requires
        0 <= count <= ticks.len(),
        forall|j: int| 0 <= j < count ==> later_than(tick, ticks[j]),
        count < ticks.len() ==> !later_than(tick, ticks[count]),
    ensures
        stale_count(ticks, tick) == count,
{
    lemma_stale_count(ticks, tick);
}

/// Whether a message for `remote` leaves the ticks of the buffer in order:
/// the buffer is empty, or the tick is not before the front by more than it
/// is after it, or not after the back by more than it is before it. In
/// short: the tick and the ticks held lie within one half of the circle.
pub open spec fn receive_keeps_order(inbox: Inbox, remote: Tick) -> bool {
    inbox.len() == 0 || at_or_later_than(remote, inbox[0].0) || at_or_later_than(
        inbox.last().0,
        remote,
    )
}

/// No tick is held twice. As each tick holds its messages by their short
/// ids, no message is then held twice under one tick and short id.
pub open spec fn distinct_keys(inbox: Inbox) -> bool {
    forall|i: int, j: int| 0 <= i < j < inbox.len() ==> inbox[i].0 != inbox[j].0
}

/// In a buffer whose ticks are in order, no message is held twice.
pub proof fn lemma_ordered_is_distinct(inbox: Inbox)
    requires
        inbox_wf(inbox),
        ascending(inbox_ticks(inbox)),
    ensures
        distinct_keys(inbox),
{
    let ticks = inbox_ticks(inbox);
    assert forall|i: int, j: int| 0 <= i < j < inbox.len() implies inbox[i].0 != inbox[j].0 by {
        assert(later_than(ticks[j], ticks[i]));
        lemma_later_than_one_way(ticks[j], ticks[i]);
    }
}

/// In a buffer in order, the scan from the back finds the tick wherever it
/// is held.
pub proof fn lemma_slot_finds(ticks: Seq<Tick>, tick: Tick, at: int)
    requires
        ascending(ticks),
        0 <= at < ticks.len(),
        ticks[at] == tick,
    ensures
        slot_for(ticks, tick) == at + 1,
{
    assert forall|j: int| at + 1 <= j < ticks.len() implies ticks[j] != tick && !later_than(
        tick,
        ticks[j],
    ) by {
        lemma_later_than_one_way(ticks[j], tick);
    }
    lemma_slot_for_unique(ticks, tick, at + 1);
}

/// A second copy of a message that waits in a buffer in order is refused,
/// whatever it holds, and the buffer stays as it was.
pub proof fn lemma_duplicate_refused(
    inbox: Inbox,
    at: int,
    host: Tick,
    id: ShortMessageId,
    message: MessageView,
)
    requires
        ascending(inbox_ticks(inbox)),
        0 <= at < inbox.len(),
        inbox[at].1.contains_key(id),
    ensures
        !accepts(inbox, inbox[at].0, host, id),
        after_receive(inbox, inbox[at].0, host, id, message) == inbox,
{
    lemma_slot_finds(inbox_ticks(inbox), inbox[at].0, at);
}

/// No short id occurs twice among the messages of one group.
pub open spec fn distinct_ids(arrivals: Arrivals) -> bool {
    forall|i: int, j: int|
        0 <= i < j < arrivals.len() ==> (#[trigger] arrivals[i]).0 != (#[trigger] arrivals[j]).0
}

/// The waiting messages of a tick once the messages of a group have
/// joined them, one after the other.
pub open spec fn waiting_with(waiting: Waiting, arrivals: Arrivals) -> Waiting
    decreases arrivals.len(),
{
    if arrivals.len() == 0 {
        waiting
    } else {
        waiting_with(waiting.insert(arrivals[0].0, arrivals[0].1), arrivals.drop_first())
    }
}

/// Once the messages of a group with no short id twice have joined, a
/// message waits under the ids of the group and under those from before,
/// and under each id of the group it is the group's message.
pub proof fn lemma_waiting_with(waiting: Waiting, arrivals: Arrivals)
    requires
        distinct_ids(arrivals),
    ensures
        forall|id: ShortMessageId| #[trigger]
            waiting_with(waiting, arrivals).contains_key(id) <==> (waiting.contains_key(id)
                || exists|k: int| 0 <= k < arrivals.len() && (#[trigger] arrivals[k]).0 == id),
        forall|k: int|
            0 <= k < arrivals.len() ==> waiting_with(waiting, arrivals)[(
            #[trigger] arrivals[k]).0] == arrivals[k].1,
    decreases arrivals.len(),
{
    if arrivals.len() > 0 {
        let first = arrivals[0];
        let rest = arrivals.drop_first();
        let joined = waiting.insert(first.0, first.1);
        assert forall|i: int, j: int| 0 <= i < j < rest.len() implies (#[trigger] rest[i]).0 != (
        #[trigger] rest[j]).0 by {
            assert(rest[i] == arrivals[i + 1] && rest[j] == arrivals[j + 1]);
        }
        lemma_waiting_with(joined, rest);
        lemma_waiting_with_keeps(joined, rest, first.0);
        assert forall|k: int| 0 <= k < rest.len() implies (#[trigger] rest[k]).0 != first.0 by {
            assert(rest[k] == arrivals[k + 1]);
        }
        assert forall|id: ShortMessageId| #[trigger]
            waiting_with(waiting, arrivals).contains_key(id) <==> (waiting.contains_key(id)
                || exists|k: int| 0 <= k < arrivals.len() && (#[trigger] arrivals[k]).0 == id) by {
            if exists|k: int| 0 <= k < arrivals.len() && (#[trigger] arrivals[k]).0 == id {
                let k = choose|k: int| 0 <= k < arrivals.len() && (#[trigger] arrivals[k]).0 == id;
                if k > 0 {
                    assert(rest[k - 1] == arrivals[k]);
                }
            }
            if exists|k: int| 0 <= k < rest.len() && (#[trigger] rest[k]).0 == id {
                let k = choose|k: int| 0 <= k < rest.len() && (#[trigger] rest[k]).0 == id;
                assert(arrivals[k + 1] == rest[k]);
            }
        }
        assert forall|k: int| 0 <= k < arrivals.len() implies waiting_with(waiting, arrivals)[(
        #[trigger] arrivals[k]).0] == arrivals[k].1 by {
            if k > 0 {
                assert(rest[k - 1] == arrivals[k]);
            }
        }
    }
}

/// What waits under an id that no message of a group has stays as it was.
pub proof fn lemma_waiting_with_keeps(waiting: Waiting, arrivals: Arrivals, id: ShortMessageId)
    requires
        waiting.contains_key(id),
        forall|k: int| 0 <= k < arrivals.len() ==> (#[trigger] arrivals[k]).0 != id,
    ensures
        waiting_with(waiting, arrivals).contains_key(id),
        waiting_with(waiting, arrivals)[id] == waiting[id],
    decreases arrivals.len(),
{
    if arrivals.len() > 0 {
        let rest = arrivals.drop_first();
        assert(arrivals[0].0 != id);
        assert forall|k: int| 0 <= k < rest.len() implies (#[trigger] rest[k]).0 != id by {
            assert(rest[k] == arrivals[k + 1]);
        }
        lemma_waiting_with_keeps(waiting.insert(arrivals[0].0, arrivals[0].1), rest, id);
    }
}

/// Messages with no short id twice, none of which waits yet, that arrive
/// for a tick whose entry the scan finds all join that entry.
pub proof fn lemma_receive_entries_joins(inbox: Inbox, slot: int, host: Tick, arrivals: Arrivals)
    requires
        0 <= slot < inbox.len(),
        later_than(inbox[slot].0, host),
        slot_for(inbox_ticks(inbox), inbox[slot].0) == slot + 1,
        distinct_ids(arrivals),
        forall|k: int|
            0 <= k < arrivals.len() ==> !inbox[slot].1.contains_key((#[trigger] arrivals[k]).0),
    ensures
        receive_entries(inbox, inbox[slot].0, host, arrivals) == inbox.update(
            slot,
            (inbox[slot].0, waiting_with(inbox[slot].1, arrivals)),
        ),
    decreases arrivals.len(),
{
    let remote = inbox[slot].0;
    let waiting = inbox[slot].1;
    if arrivals.len() == 0 {
        assert(inbox.update(slot, (remote, waiting)) =~= inbox);
    } else {
        let first = arrivals[0];
        let rest = arrivals.drop_first();
        let next = after_receive(inbox, remote, host, first.0, first.1);
        assert(next == inbox.update(slot, (remote, waiting.insert(first.0, first.1))));
        assert(inbox_ticks(next) =~= inbox_ticks(inbox));
        assert forall|i: int, j: int| 0 <= i < j < rest.len() implies (#[trigger] rest[i]).0 != (
        #[trigger] rest[j]).0 by {
            assert(rest[i] == arrivals[i + 1] && rest[j] == arrivals[j + 1]);
        }
        assert forall|k: int| 0 <= k < rest.len() implies !next[slot].1.contains_key(
            (#[trigger] rest[k]).0,
        ) by {
            assert(rest[k] == arrivals[k + 1]);
        }
        lemma_receive_entries_joins(next, slot, host, rest);
        assert(next.update(slot, (remote, waiting_with(next[slot].1, rest))) =~= inbox.update(
            slot,
            (remote, waiting_with(waiting, arrivals)),
        ));
    }
}

/// The messages of a group with no short id twice that arrive for a tick
/// of which the scan finds no entry make one new entry, where the scan
/// stopped.
pub proof fn lemma_receive_entries_new(inbox: Inbox, remote: Tick, host: Tick, arrivals: Arrivals)
    requires
        later_than(remote, host),
        !joins_entry(inbox, remote),
        arrivals.len() > 0,
        distinct_ids(arrivals),
    ensures
        receive_entries(inbox, remote, host, arrivals) == inbox.insert(
            slot_for(inbox_ticks(inbox), remote),
            (remote, waiting_with(Waiting::empty(), arrivals)),
        ),
{
    let ticks = inbox_ticks(inbox);
    let slot = slot_for(ticks, remote);
    lemma_slot_for(ticks, remote);
    let first = arrivals[0];
    let rest = arrivals.drop_first();
    let begun = Waiting::empty().insert(first.0, first.1);
    let next = after_receive(inbox, remote, host, first.0, first.1);
    assert(next == inbox.insert(slot, (remote, begun)));
    let after = inbox_ticks(next);
    assert(after =~= ticks.insert(slot, remote));
    assert forall|j: int| slot + 1 <= j < after.len() implies after[j] != remote && !later_than(
        remote,
        after[j],
    ) by {
        assert(after[j] == ticks[j - 1]);
    }
    lemma_slot_for_unique(after, remote, slot + 1);
    assert forall|i: int, j: int| 0 <= i < j < rest.len() implies (#[trigger] rest[i]).0 != (
    #[trigger] rest[j]).0 by {
        assert(rest[i] == arrivals[i + 1] && rest[j] == arrivals[j + 1]);
    }
    assert forall|k: int| 0 <= k < rest.len() implies !next[slot].1.contains_key(
        (#[trigger] rest[k]).0,
    ) by {
        assert(rest[k] == arrivals[k + 1]);
    }
    lemma_receive_entries_joins(next, slot, host, rest);
    assert(next.update(slot, (remote, waiting_with(begun, rest))) =~= inbox.insert(
        slot,
        (remote, waiting_with(Waiting::empty(), arrivals)),
    ));
}

/// Whether the groups of a packet are as a sender writes them for a host
/// that can still use them: each for a tick that the host has yet to run,
/// each with a message and with no short id twice, and each tick after all
/// those that follow it.
pub open spec fn groups_receivable(groups: Seq<(Tick, Arrivals)>, host: Tick) -> bool {
    &&& forall|i: int|
        0 <= i < groups.len() ==> later_than((#[trigger] groups[i]).0, host) && groups[i].1.len()
            > 0 && distinct_ids(groups[i].1)
    &&& forall|i: int, j: int|
        0 <= i < j < groups.len() ==> later_than(
            (#[trigger] groups[i]).0,
            (#[trigger] groups[j]).0,
        )
}

/// The buffer that holds the messages of some groups and nothing else: an
/// entry for each group, oldest tick first, with each message under its
/// short id.
pub open spec fn inbox_of(groups: Seq<(Tick, Arrivals)>) -> Inbox {
    Seq::new(
        groups.len(),
        |i: int|
            (
                groups[groups.len() - 1 - i].0,
                waiting_with(Waiting::empty(), groups[groups.len() - 1 - i].1),
            ),
    )
}

/// Groups as a sender writes them, of ticks before all that the buffer
/// holds, go in front of what the buffer holds: an entry for each group,
/// with each message under its short id.
pub proof fn lemma_receive_groups_in_front(inbox: Inbox, host: Tick, groups: Seq<(Tick, Arrivals)>)
    requires
        groups_receivable(groups, host),
        forall|i: int, j: int|
            0 <= i < groups.len() && 0 <= j < inbox.len() ==> later_than(
                (#[trigger] inbox[j]).0,
                (#[trigger] groups[i]).0,
            ),
    ensures
        receive_groups(inbox, host, groups) == inbox_of(groups) + inbox,
    decreases groups.len(),
{
    if groups.len() == 0 {
        assert(inbox_of(groups) + inbox =~= inbox);
    } else {
        let first = groups[0];
        let rest = groups.drop_first();
        let ticks = inbox_ticks(inbox);
        assert forall|j: int| 0 <= j < ticks.len() implies ticks[j] != first.0 && !later_than(
            first.0,
            ticks[j],
        ) by {
            assert(later_than(inbox[j].0, groups[0].0));
            lemma_later_than_one_way(ticks[j], first.0);
        }
        lemma_slot_for_unique(ticks, first.0, 0);
        lemma_receive_entries_new(inbox, first.0, host, first.1);
        let next = receive_entries(inbox, first.0, host, first.1);
        let entry = (first.0, waiting_with(Waiting::empty(), first.1));
        assert(next == inbox.insert(0, entry));
        assert forall|i: int| 0 <= i < rest.len() implies later_than(
            (#[trigger] rest[i]).0,
            host,
        ) && rest[i].1.len() > 0 && distinct_ids(rest[i].1) by {
            assert(rest[i] == groups[i + 1]);
        }
        assert forall|i: int, j: int| 0 <= i < j < rest.len() implies later_than(
            (#[trigger] rest[i]).0,
            (#[trigger] rest[j]).0,
        ) by {
            assert(rest[i] == groups[i + 1] && rest[j] == groups[j + 1]);
        }
        assert forall|i: int, j: int| 0 <= i < rest.len() && 0 <= j < next.len() implies later_than(
            (#[trigger] next[j]).0,
            (#[trigger] rest[i]).0,
        ) by {
            assert(rest[i] == groups[i + 1]);
            if j == 0 {
                assert(later_than(groups[0].0, groups[i + 1].0));
            } else {
                assert(next[j] == inbox[j - 1]);
            }
        }
        lemma_receive_groups_in_front(next, host, rest);
        assert(inbox_of(rest) + next =~= inbox_of(groups) + inbox) by {
            let left = inbox_of(rest) + next;
            let right = inbox_of(groups) + inbox;
            assert(left.len() == right.len());
            assert forall|k: int| 0 <= k < left.len() implies left[k] == right[k] by {
                if k < rest.len() {
                    assert(rest[rest.len() - 1 - k] == groups[groups.len() - 1 - k]);
                } else if k == rest.len() {
                    assert(next[0] == entry);
                } else {
                    assert(next[k - rest.len()] == inbox[k - rest.len() - 1]);
                }
            }
        }
    }
}

/// An empty buffer that takes in groups as a sender writes them holds
/// their messages and nothing else: an entry for each group, oldest tick
/// first, with each message under its short id.
pub proof fn lemma_receive_groups_into_empty(host: Tick, groups: Seq<(Tick, Arrivals)>)
    requires
        groups_receivable(groups, host),
    ensures
        receive_groups(Inbox::empty(), host, groups) == inbox_of(groups),
{
    lemma_receive_groups_in_front(Inbox::empty(), host, groups);
    assert(inbox_of(groups) + Inbox::empty() =~= inbox_of(groups));
}

/// A message that arrives leaves a valid buffer valid.
pub proof fn lemma_receive_keeps_wf(
    inbox: Inbox,
    remote: Tick,
    host: Tick,
    id: ShortMessageId,
    message: MessageView,
)
    requires
        inbox_wf(inbox),
    ensures
        inbox_wf(after_receive(inbox, remote, host, id, message)),
{
    let after = after_receive(inbox, remote, host, id, message);
    let slot = slot_for(inbox_ticks(inbox), remote);
    lemma_slot_for(inbox_ticks(inbox), remote);
    assert forall|i: int| 0 <= i < after.len() implies has_message((#[trigger] after[i]).1) by {
        if accepts(inbox, remote, host, id) {
            if joins_entry(inbox, remote) {
                if i != slot - 1 {
                    assert(after[i] == inbox[i]);
                } else {
                    lemma_has_message(after[i].1);
                    assert(after[i].1.contains_key(id));
                }
            } else {
                if i < slot {
                    assert(after[i] == inbox[i]);
                } else if i > slot {
                    assert(after[i] == inbox[i - 1]);
                } else {
                    lemma_has_message(after[i].1);
                    assert(after[i].1.contains_key(id));
                }
            }
        }
    }
}

/// The ticks of an ordered buffer lie ever further ahead of the first, and
/// all less than half the circle.
pub proof fn lemma_ascending_offsets(ticks: Seq<Tick>)
    requires
        ascending(ticks),
        ticks.len() > 0,
    ensures
        forall|i: int| 0 <= i < ticks.len() ==> 0 <= #[trigger] steps_forward(ticks[0], ticks[i])
            < 0x8000,
        forall|i: int, j: int|
            0 <= i < j < ticks.len() ==> #[trigger] steps_forward(ticks[0], ticks[i])
                < #[trigger] steps_forward(ticks[0], ticks[j]),
{
    assert forall|i: int| 0 <= i < ticks.len() implies 0 <= #[trigger] steps_forward(
        ticks[0],
        ticks[i],
    ) < 0x8000 by {
        if i > 0 {
            assert(later_than(ticks[i], ticks[0]));
        }
    }
    assert forall|i: int, j: int| 0 <= i < j < ticks.len() implies #[trigger] steps_forward(
        ticks[0],
        ticks[i],
    ) < #[trigger] steps_forward(ticks[0], ticks[j]) by {
        assert(later_than(ticks[j], ticks[i]));
        assert(0 <= steps_forward(ticks[0], ticks[i]) < 0x8000);
        lemma_steps_chain(ticks[0], ticks[i], ticks[j]);
    }
}

/// Ticks that lie ever further ahead of some counter, and all less than
/// half the circle, are in order.
pub proof fn lemma_offsets_ascending(ticks: Seq<Tick>, base: Tick)
    requires
        forall|i: int| 0 <= i < ticks.len() ==> #[trigger] steps_forward(base, ticks[i]) < 0x8000,
        forall|i: int, j: int|
            0 <= i < j < ticks.len() ==> #[trigger] steps_forward(base, ticks[i])
                < #[trigger] steps_forward(base, ticks[j]),
    ensures
        ascending(ticks),
{
    assert forall|i: int, j: int| 0 <= i < j < ticks.len() implies later_than(
        ticks[j],
        ticks[i],
    ) by {
        assert(steps_forward(base, ticks[i]) < steps_forward(base, ticks[j]));
        lemma_order_by_offset(base, ticks[i], ticks[j]);
    }
}

/// A tick that is not yet held and lies no more than half the circle ahead
/// of the front goes where it keeps the order.
#[verifier::spinoff_prover]
proof fn lemma_insert_ahead_of_front(ticks: Seq<Tick>, remote: Tick)
    requires
        ascending(ticks),
        ticks.len() > 0,
        steps_forward(ticks[0], remote) < 0x8000,
        slot_for(ticks, remote) == 0 || ticks[slot_for(ticks, remote) - 1] != remote,
    ensures
        ascending(ticks.insert(slot_for(ticks, remote), remote)),
{
    let slot = slot_for(ticks, remote);
    let first = ticks[0];
    let after = ticks.insert(slot, remote);
    lemma_slot_for(ticks, remote);
    lemma_ascending_offsets(ticks);
    assert forall|i: int| 0 <= i < after.len() implies #[trigger] steps_forward(first, after[i])
        < 0x8000 by {
        if i < slot {
            assert(after[i] == ticks[i]);
        } else if i > slot {
            assert(after[i] == ticks[i - 1]);
        }
    }
    assert forall|i: int, j: int| 0 <= i < j < after.len() implies #[trigger] steps_forward(
        first,
        after[i],
    ) < #[trigger] steps_forward(first, after[j]) by {
        let from = if i < slot { i } else { i - 1 };
        let to = if j < slot { j } else { j - 1 };
        if i == slot {
            assert(after[j] == ticks[to]);
            assert(steps_forward(first, ticks[to]) < 0x8000);
            lemma_order_by_offset(first, remote, ticks[to]);
        } else if j == slot {
            assert(after[i] == ticks[from]);
            assert(steps_forward(first, ticks[from]) < 0x8000);
            lemma_order_by_offset(first, ticks[from], remote);
            lemma_order_by_offset(first, ticks[slot - 1], remote);
            if from < slot - 1 {
                assert(steps_forward(first, ticks[from]) < steps_forward(first, ticks[slot - 1]));
            }
        } else {
            assert(after[i] == ticks[from]);
            assert(after[j] == ticks[to]);
        }
    }
    lemma_offsets_ascending(after, first);
}

/// A tick that lies more than half the circle behind the front, but less
/// than half behind the back, goes in front of all.
#[verifier::spinoff_prover]
proof fn lemma_insert_behind_front(ticks: Seq<Tick>, remote: Tick)
    requires
        ascending(ticks),
        ticks.len() > 0,
        steps_forward(ticks[0], remote) >= 0x8000,
        steps_forward(remote, ticks.last()) < 0x8000,
    ensures
        slot_for(ticks, remote) == 0,
        ascending(ticks.insert(0, remote)),
{
    let first = ticks[0];
    let last = ticks.last();
    let after = ticks.insert(0, remote);
    lemma_ascending_offsets(ticks);
    lemma_steps_round_trip(first, remote);
    lemma_steps_chain(remote, first, last);
    assert(steps_forward(first, last) < 0x8000);
    assert forall|i: int| 0 <= i < ticks.len() implies 0 < #[trigger] steps_forward(
        remote,
        ticks[i],
    ) < 0x8000 && steps_forward(remote, ticks[i]) == steps_forward(remote, first)
        + steps_forward(first, ticks[i]) by {
        lemma_steps_chain(remote, first, ticks[i]);
        assert(steps_forward(first, ticks[i]) < 0x8000);
        if i < ticks.len() - 1 {
            assert(steps_forward(first, ticks[i]) < steps_forward(first, ticks[ticks.len() - 1]));
        }
    }
    assert forall|j: int| 0 <= j < ticks.len() implies ticks[j] != remote && !later_than(
        remote,
        ticks[j],
    ) by {
        assert(0 < steps_forward(remote, ticks[j]) < 0x8000);
        lemma_later_than_one_way(ticks[j], remote);
    }
    lemma_slot_for_unique(ticks, remote, 0);
    assert forall|i: int| 0 <= i < after.len() implies #[trigger] steps_forward(remote, after[i])
        < 0x8000 by {
        if i > 0 {
            assert(after[i] == ticks[i - 1]);
            assert(0 < steps_forward(remote, ticks[i - 1]) < 0x8000);
        }
    }
    assert forall|i: int, j: int| 0 <= i < j < after.len() implies #[trigger] steps_forward(
        remote,
        after[i],
    ) < #[trigger] steps_forward(remote, after[j]) by {
        assert(after[j] == ticks[j - 1]);
        assert(0 < steps_forward(remote, ticks[j - 1]) < 0x8000);
        if i > 0 {
            assert(after[i] == ticks[i - 1]);
            assert(0 < steps_forward(remote, ticks[i - 1]) < 0x8000);
            assert(steps_forward(first, ticks[i - 1]) < steps_forward(first, ticks[j - 1]));
        }
    }
    lemma_offsets_ascending(after, remote);
}

/// A message that is taken in leaves the ticks of an ordered buffer in
/// order if, and only if, its tick lies in the buffer's window.
#[verifier::spinoff_prover]
pub proof fn lemma_receive_order(
    inbox: Inbox,
    remote: Tick,
    host: Tick,
    id: ShortMessageId,
    message: MessageView,
)
    requires
        ascending(inbox_ticks(inbox)),
        later_than(remote, host),
    ensures
        ascending(inbox_ticks(after_receive(inbox, remote, host, id, message)))
            <==> receive_keeps_order(inbox, remote),
{
    let ticks = inbox_ticks(inbox);
    let after = inbox_ticks(after_receive(inbox, remote, host, id, message));
    let slot = slot_for(ticks, remote);
    lemma_slot_for(ticks, remote);
    if inbox.len() == 0 {
        assert(after.len() <= 1);
    } else if joins_entry(inbox, remote) {
        // the tick is held already: no tick moves
        assert(after =~= ticks);
        assert(ticks[slot - 1] == remote);
        lemma_ascending_offsets(ticks);
        assert(steps_forward(ticks[0], ticks[slot - 1]) < 0x8000);
    } else {
        assert(ticks[0] == inbox[0].0 && ticks.last() == inbox.last().0);
        assert(after =~= ticks.insert(slot, remote));
        if steps_forward(ticks[0], remote) < 0x8000 {
            lemma_insert_ahead_of_front(ticks, remote);
        } else if steps_forward(remote, ticks.last()) < 0x8000 {
            lemma_insert_behind_front(ticks, remote);
        } else if ascending(after) {
            if slot > 0 {
                assert(after[0] == ticks[0]);
                assert(later_than(after[slot], after[0]));
            } else {
                assert(after[after.len() - 1] == ticks[ticks.len() - 1]);
                assert(later_than(after[after.len() - 1], after[0]));
            }
        }
    }
}

/// Taking a message out leaves the ticks of an ordered buffer in order.
pub proof fn lemma_pop_order(inbox: Inbox, tick: Tick)
    requires
        ascending(inbox_ticks(inbox)),
    ensures
        ascending(inbox_ticks(after_pop(inbox, tick))),
{
    let ticks = inbox_ticks(inbox);
    let stale = stale_count(ticks, tick);
    lemma_stale_count(ticks, tick);
    let after = inbox_ticks(after_pop(inbox, tick));
    let gone = ticks.len() - after.len();
    assert forall|i: int, j: int| 0 <= i < j < after.len() implies later_than(
        after[j],
        after[i],
    ) by {
        assert(after[i] == ticks[i + gone]);
        assert(after[j] == ticks[j + gone]);
    }
}

/// From an ordered buffer, asking for the messages of a tick until none
/// comes gives the messages of the one entry of that tick, in the order of
/// their short ids, and nothing where no entry is of that tick.
pub proof fn lemma_collected_in_order(inbox: Inbox, tick: Tick)
    requires
        ascending(inbox_ticks(inbox)),
    ensures
        forall|i: int|
            0 <= i < inbox.len() && (#[trigger] inbox[i]).0 == tick ==> collected(inbox, tick).0
                == messages_of(inbox[i].1),
        (forall|i: int| 0 <= i < inbox.len() ==> (#[trigger] inbox[i]).0 != tick) ==> collected(
            inbox,
            tick,
        ).0 == Seq::<MessageView>::empty(),
{
    let ticks = inbox_ticks(inbox);
    let stale = stale_count(ticks, tick);
    lemma_stale_count(ticks, tick);
    lemma_later_than_one_way(tick, tick);
    let fresh = inbox.skip(stale);
    assert forall|i: int| 0 <= i < inbox.len() && (#[trigger] inbox[i]).0 == tick implies i
        == stale by {
        assert(ticks[i] == tick);
        if i < stale {
            assert(later_than(tick, ticks[i]));
        }
        if stale < i {
            assert(later_than(ticks[i], ticks[stale]));
            lemma_later_than_one_way(tick, ticks[stale]);
        }
    }
    if fresh.len() > 0 && fresh[0].0 == tick {
        assert(fresh[0] == inbox[stale]);
        let behind = fresh.drop_first();
        let behind_ticks = inbox_ticks(behind);
        if behind.len() > 0 {
            assert(behind[0] == inbox[stale + 1]);
            assert(behind_ticks[0] == ticks[stale + 1]);
            assert(later_than(ticks[stale + 1], ticks[stale]));
            lemma_later_than_one_way(ticks[stale + 1], tick);
        }
        lemma_stale_count_unique(behind_ticks, tick, 0);
        assert(behind.skip(0) =~= behind);
        assert(collected(behind, tick).0 =~= Seq::<MessageView>::empty());
        assert(messages_of(fresh[0].1) + Seq::<MessageView>::empty() =~= messages_of(fresh[0].1));
    } else {
        if fresh.len() > 0 {
            assert(fresh[0] == inbox[stale]);
        }
    }
}

/// Taking a message out leaves a valid buffer valid.
pub proof fn lemma_pop_keeps_wf(inbox: Inbox, tick: Tick)
    requires
        inbox_wf(inbox),
    ensures
        inbox_wf(after_pop(inbox, tick)),
{
    let stale = stale_count(inbox_ticks(inbox), tick);
    lemma_stale_count(inbox_ticks(inbox), tick);
    let fresh = inbox.skip(stale);
    let after = after_pop(inbox, tick);
    let gone = inbox.len() - after.len();
    assert forall|i: int| 0 <= i < after.len() implies has_message((#[trigger] after[i]).1) by {
        if !(gone == stale && i == 0) {
            assert(after[i] == inbox[i + gone]);
        } else if !(fresh[0].0 == tick && has_message(fresh[0].1)) {
            assert(after[i] == inbox[i + gone]);
        }
    }
}

/// One step in the life of a buffer.
pub enum InboxStep {
    /// A message with a short id arrived for a tick while the host was at
    /// another.
    Receive { remote: Tick, host: Tick, id: ShortMessageId, message: MessageView },
    /// A message of a tick was asked for.
    Pop { tick: Tick },
}

/// The buffer after one step.
pub open spec fn after_inbox_step(inbox: Inbox, step: InboxStep) -> Inbox {
    match step {
        InboxStep::Receive { remote, host, id, message } => after_receive(
            inbox,
            remote,
            host,
            id,
            message,
        ),
        InboxStep::Pop { tick } => after_pop(inbox, tick),
    }
}

/// The buffer after some steps, in their order.
pub open spec fn after_inbox_steps(inbox: Inbox, steps: Seq<InboxStep>) -> Inbox
    decreases steps.len(),
{
    if steps.len() == 0 {
        inbox
    } else {
        after_inbox_step(after_inbox_steps(inbox, steps.drop_last()), steps.last())
    }
}

/// Whether every message of some steps that is taken in comes for a tick in
/// the window that the buffer has by then.
pub open spec fn receives_in_window(inbox: Inbox, steps: Seq<InboxStep>) -> bool
    decreases steps.len(),
{
    if steps.len() == 0 {
        true
    } else {
        &&& receives_in_window(inbox, steps.drop_last())
        &&& steps.last() matches InboxStep::Receive { remote, host, .. } ==> (later_than(
            remote,
            host,
        ) ==> receive_keeps_order(after_inbox_steps(inbox, steps.drop_last()), remote))
    }
}

/// After any run of arrivals and askings that begins with an empty buffer,
/// no entry is without a message and none holds a short id twice; and
/// where every message that was taken in came for a tick in the window of
/// its time, the ticks come in order, oldest first, and no tick is held
/// twice.
pub proof fn lemma_inbox_invariants(steps: Seq<InboxStep>)
    ensures
        inbox_wf(after_inbox_steps(Inbox::empty(), steps)),
        receives_in_window(Inbox::empty(), steps) ==> ascending(
            inbox_ticks(after_inbox_steps(Inbox::empty(), steps)),
        ) && distinct_keys(after_inbox_steps(Inbox::empty(), steps)),
    decreases steps.len(),
{
    if steps.len() > 0 {
        let before = after_inbox_steps(Inbox::empty(), steps.drop_last());
        let after = after_inbox_steps(Inbox::empty(), steps);
        lemma_inbox_invariants(steps.drop_last());
        match steps.last() {
            InboxStep::Receive { remote, host, id, message } => {
                lemma_receive_keeps_wf(before, remote, host, id, message);
                if receives_in_window(Inbox::empty(), steps) {
                    if later_than(remote, host) {
                        lemma_receive_order(before, remote, host, id, message);
                    }
                    lemma_ordered_is_distinct(after);
                }
            },
            InboxStep::Pop { tick } => {
                lemma_pop_keeps_wf(before, tick);
                if receives_in_window(Inbox::empty(), steps) {
                    lemma_pop_order(before, tick);
                    lemma_ordered_is_distinct(after);
                }
            },
        }
    } else {
        lemma_ordered_is_distinct(Inbox::empty());
    }
}

/// What the messages of one group hold, as mathematical values.
pub open spec fn arrivals_view(held: Seq<(ShortMessageId, Message)>) -> Arrivals {
    Seq::new(held.len(), |i: int| (held[i].0, held[i].1@))
}

/// What the waiting messages of one tick hold, as mathematical values.
pub open spec fn waiting_view(held: Map<ShortMessageId, Message>) -> Waiting {
    Map::new(|id: ShortMessageId| held.contains_key(id), |id: ShortMessageId| held[id]@)
}

/// The receiver's buffer of messages for ticks that the host has yet to run.
pub struct IncomingMessages {
    // front is small, back is big
    buffer: VecDeque<(Tick, HashMap<ShortMessageId, Message>)>,
}

impl View for IncomingMessages {
    type V = Inbox;

    closed spec fn view(&self) -> Inbox {
        Seq::new(
            self.buffer@.len(),
            |i: int| (self.buffer@[i].0, waiting_view(self.buffer@[i].1@)),
        )
    }
}

/// No entry is without a message.
pub open spec fn inbox_wf(inbox: Inbox) -> bool {
    forall|i: int| 0 <= i < inbox.len() ==> has_message((#[trigger] inbox[i]).1)
}

/// The least short id under which a message is held.
fn first_id(held: &HashMap<ShortMessageId, Message>) -> (r: ShortMessageId)
    requires
        has_message(waiting_view(held@)),
    ensures
        r == least_id(waiting_view(held@)),
        held@.contains_key(r),
{
    let ghost waiting = waiting_view(held@);
    proof {
        lemma_least_id_from(waiting, 0);
    }
    let mut id: ShortMessageId = 0;
    while !held.contains_key(&id)
        invariant
            waiting == waiting_view(held@),
            least_id_from(waiting, 0) < 256,
            id <= least_id_from(waiting, 0),
            least_id_from(waiting, id as int) == least_id_from(waiting, 0),
        decreases 256 - id,
    {
        proof {
            lemma_least_id_from(waiting, id as int);
            assert(!waiting.contains_key(id));
        }
        id += 1;
    }
    assert(waiting.contains_key(id));
    id
}

impl IncomingMessages {
    /// No entry is without a message.
    pub open spec fn wf(&self) -> bool {
        inbox_wf(self@)
    }

    pub fn new() -> (r: IncomingMessages)
        ensures
            r.wf(),
            r@ == Inbox::empty(),
    {
        let r = IncomingMessages { buffer: VecDeque::new() };
        assert(r@ =~= Inbox::empty());
        r
    }

    /// Takes in a message that arrived for `remote_tick` while the host is at
    /// `host_tick`, and says whether it was kept.
    pub fn push_back(
        &mut self,
        remote_tick: &Tick,
        host_tick: &Tick,
        short_msg_id: ShortMessageId,
        new_message: Message,
    ) -> (r: bool)
        requires
            old(self).wf(),
        ensures
            final(self).wf(),
            r == accepts(old(self)@, *remote_tick, *host_tick, short_msg_id),
            final(self)@ == after_receive(
                old(self)@,
                *remote_tick,
                *host_tick,
                short_msg_id,
                new_message@,
            ),
    {
        if !sequence_greater_than(*remote_tick, *host_tick) {
            // too late to be of use to the host
            return false;
        }
        let ghost before = self@;
        let ghost ticks = inbox_ticks(before);
        let ghost added = new_message@;
        let mut index: usize = self.buffer.len();
        while index > 0
            invariant
                self@ == before,
                before == old(self)@,
                self.wf(),
                ticks == inbox_ticks(before),
                added == new_message@,
                later_than(*remote_tick, *host_tick),
                index <= self.buffer@.len(),
                self.buffer@.len() == before.len(),
                forall|j: int|
                    index <= j < ticks.len() ==> ticks[j] != *remote_tick && !later_than(
                        *remote_tick,
                        ticks[j],
                    ),
            decreases index,
        {
            let entry_tick = self.buffer[index - 1].0;
            assert(entry_tick == ticks[index - 1]);
            if entry_tick == *remote_tick {
                proof {
                    lemma_slot_for_unique(ticks, *remote_tick, index as int);
                }
                assert(before[index - 1].1 == waiting_view(self.buffer@[index - 1].1@));
                if self.buffer[index - 1].1.contains_key(&short_msg_id) {
                    return false;
                }
                let taken = self.buffer.remove(index - 1);
                let (tick, mut held) = taken.unwrap();
                let ghost prior = waiting_view(held@);
                held.insert(short_msg_id, new_message);
                assert(waiting_view(held@) =~= prior.insert(short_msg_id, added));
                self.buffer.insert(index - 1, (tick, held));
                assert(self@ =~= before.update(
                    index - 1,
                    (*remote_tick, prior.insert(short_msg_id, added)),
                ));
                proof {
                    lemma_receive_keeps_wf(
                        before,
                        *remote_tick,
                        *host_tick,
                        short_msg_id,
                        added,
                    );
                }
                return true;
            }
            if sequence_greater_than(*remote_tick, entry_tick) {
                proof {
                    lemma_slot_for_unique(ticks, *remote_tick, index as int);
                }
                let mut held: HashMap<ShortMessageId, Message> = HashMap::new();
                held.insert(short_msg_id, new_message);
                assert(waiting_view(held@) =~= Waiting::empty().insert(short_msg_id, added));
                self.buffer.insert(index, (*remote_tick, held));
                assert(self@ =~= before.insert(
                    index as int,
                    (*remote_tick, Waiting::empty().insert(short_msg_id, added)),
                ));
                proof {
                    lemma_receive_keeps_wf(
                        before,
                        *remote_tick,
                        *host_tick,
                        short_msg_id,
                        added,
                    );
                }
                return true;
            }
            index -= 1;
        }
        proof {
            lemma_slot_for_unique(ticks, *remote_tick, 0);
        }
        let mut held: HashMap<ShortMessageId, Message> = HashMap::new();
        held.insert(short_msg_id, new_message);
        assert(waiting_view(held@) =~= Waiting::empty().insert(short_msg_id, added));
        self.buffer.push_front((*remote_tick, held));
        assert(self@ =~= before.insert(
            0,
            (*remote_tick, Waiting::empty().insert(short_msg_id, added)),
        ));
        proof {
            lemma_receive_keeps_wf(before, *remote_tick, *host_tick, short_msg_id, added);
        }
        true
    }

    /// Drops the entries older than `server_tick` and hands out one message
    /// of `server_tick`, if the buffer has any.
    pub fn pop_front(&mut self, server_tick: Tick) -> (r: Option<Message>)
        requires
            old(self).wf(),
        ensures
            final(self).wf(),
            final(self)@ == after_pop(old(self)@, server_tick),
            match r {
                Some(message) => next_message(old(self)@, server_tick) == Some(message@),
                None => next_message(old(self)@, server_tick) is None,
            },
    {
        let ghost before = self@;
        let ghost ticks = inbox_ticks(before);
        let ghost mut dropped: int = 0;
        assert(before.skip(0) =~= before);
        // get rid of outdated entries
        loop
            invariant
                self.wf(),
                ticks == inbox_ticks(before),
                0 <= dropped <= before.len(),
                self@ == before.skip(dropped),
                forall|j: int| 0 <= j < dropped ==> later_than(server_tick, ticks[j]),
            ensures
                self.wf(),
                0 <= dropped <= before.len(),
                self@ == before.skip(dropped),
                dropped == stale_count(ticks, server_tick),
            decreases self.buffer@.len(),
        {
            assert(self@.len() == self.buffer@.len());
            if self.buffer.len() == 0 {
                proof {
                    lemma_stale_count_unique(ticks, server_tick, dropped);
                }
                break ;
            }
            assert(self@[0] == before[dropped]);
            if !sequence_greater_than(server_tick, self.buffer[0].0) {
                proof {
                    lemma_stale_count_unique(ticks, server_tick, dropped);
                }
                break ;
            }
            let ghost prior = self@;
            self.buffer.pop_front();
            assert(self@ =~= prior.skip(1));
            assert(prior.skip(1) =~= before.skip(dropped + 1));
            proof {
                dropped = dropped + 1;
            }
            assert forall|i: int| 0 <= i < self@.len() implies has_message(
                (#[trigger] self@[i]).1,
            ) by {
                assert(self@[i] == prior[i + 1]);
            }
        }
        let ghost fresh = self@;
        if self.buffer.len() == 0 || self.buffer[0].0 != server_tick {
            return None;
        }
        assert(has_message(fresh[0].1));
        let front = self.buffer.pop_front();
        let (tick, mut held) = front.unwrap();
        let ghost prior = waiting_view(held@);
        assert(prior == fresh[0].1);
        let msg_id = first_id(&held);
        let taken = held.remove(&msg_id);
        assert(waiting_view(held@) =~= prior.remove(msg_id));
        let message = taken.unwrap();
        proof {
            lemma_has_message(prior.remove(msg_id));
            lemma_pop_keeps_wf(before, server_tick);
        }
        if !held.is_empty() {
            self.buffer.push_front((tick, held));
            assert(self@ =~= fresh.update(0, (server_tick, prior.remove(msg_id))));
        } else {
            assert(self@ =~= fresh.drop_first());
        }
        Some(message)
    }
}

} // verus!
