//! The sender's history of unacknowledged messages, newest tick first.

use crate::message::{
    Message, MessageId, MessageMap, MessageView, cleared, lemma_occupied_push, live_entries,
    occupied, staged_view,
};
use crate::tick::{
    Tick, at_or_later_than, later_than, lemma_later_than_one_way, lemma_order_by_offset,
    lemma_steps_chain, lemma_steps_round_trip, sequence_greater_than, steps_forward,
};
use std::collections::VecDeque;
use vstd::prelude::*;

verus! {

/// How many distinct ticks the history keeps; older ones are evicted.
pub const MESSAGE_HISTORY_SIZE: u16 = 64;

/// The history as mathematical values: per tick, the sparse sequence of its
/// messages. Index 0 is the front, the most recent tick.
pub type History = Seq<(Tick, Seq<Option<MessageView>>)>;

/// The ticks of a history, front to back.
pub open spec fn ticks_of<T>(entries: Seq<(Tick, T)>) -> Seq<Tick> {
    Seq::new(entries.len(), |i: int| entries[i].0)
}

/// Every tick comes after all those behind it.
pub open spec fn descending(ticks: Seq<Tick>) -> bool {
    forall|i: int, j: int| 0 <= i < j < ticks.len() ==> later_than(ticks[i], ticks[j])
}

/// The history after `message` was sent at `tick`: it joins the front entry
/// where that has the same tick, else it opens a new front entry, and the
/// oldest entries beyond `MESSAGE_HISTORY_SIZE` are dropped.
pub open spec fn after_push(history: History, tick: Tick, message: MessageView) -> History {
    if history.len() > 0 && history[0].0 == tick {
        history.update(0, (tick, history[0].1.push(Some(message))))
    } else {
        let grown = seq![(tick, seq![Some(message)])] + history;
        if grown.len() > MESSAGE_HISTORY_SIZE {
            grown.take(MESSAGE_HISTORY_SIZE as int)
        } else {
            grown
        }
    }
}

/// Where a scan from the front for `tick` stops: at the first entry that has
/// this tick or an older one, or at the end.
pub open spec fn first_not_newer(ticks: Seq<Tick>, tick: Tick) -> int
    decreases ticks.len(),
{
    if ticks.len() == 0 || ticks[0] == tick || later_than(tick, ticks[0]) {
        0
    } else {
        1 + first_not_newer(ticks.drop_first(), tick)
    }
}

/// The history after the message `id` of `tick` was delivered. The scan for
/// the tick runs from the front and gives up at the first older entry. The
/// message's slot is emptied, and an entry left without messages goes.
pub open spec fn after_delivery(history: History, tick: Tick, id: MessageId) -> History {
    let at = first_not_newer(ticks_of(history), tick);
    if at < history.len() && history[at].0 == tick {
        let rest = cleared(history[at].1, id);
        if occupied(rest) == 0 {
            history.remove(at)
        } else {
            history.update(at, (tick, rest))
        }
    } else {
        history
    }
}

/// How many entries stay when the back is pruned up to `until`: all up to
/// the backmost entry that is newer than `until`.
pub open spec fn kept_count(ticks: Seq<Tick>, until: Tick) -> int
    decreases ticks.len(),
{
    if ticks.len() == 0 || later_than(ticks.last(), until) {
        ticks.len() as int
    } else {
        kept_count(ticks.drop_last(), until)
    }
}

/// The history after its back was pruned up to `until`.
pub open spec fn after_prune(history: History, until: Tick) -> History {
    history.take(kept_count(ticks_of(history), until))
}

/// How many entries from the front may be sent while the sender is at
/// `sending`: all in front of the first one whose tick is yet to come.
pub open spec fn sendable_count(ticks: Seq<Tick>, sending: Tick) -> int
    decreases ticks.len(),
{
    if ticks.len() == 0 || later_than(ticks[0], sending) {
        0
    } else {
        1 + sendable_count(ticks.drop_first(), sending)
    }
}

/// What stays is a front part of the history that ends with an entry newer
/// than `until`, or nothing; and no entry that goes is newer than `until`.
pub proof fn lemma_kept_count(ticks: Seq<Tick>, until: Tick)
    ensures
        0 <= kept_count(ticks, until) <= ticks.len(),
        kept_count(ticks, until) > 0 ==> later_than(ticks[kept_count(ticks, until) - 1], until),
        forall|j: int|
            kept_count(ticks, until) <= j < ticks.len() ==> !later_than(#[trigger] ticks[j], until),
    decreases ticks.len(),
{
    if !(ticks.len() == 0 || later_than(ticks.last(), until)) {
        let rest = ticks.drop_last();
        lemma_kept_count(rest, until);
        assert forall|j: int| kept_count(ticks, until) <= j < ticks.len() implies !later_than(
            #[trigger] ticks[j],
            until,
        ) by {
            if j < rest.len() {
                assert(ticks[j] == rest[j]);
            }
        }
    }
}

/// The count is the only one with a newer entry as the last that stays, or
/// none staying, and no newer entry among those that go.
pub proof fn lemma_kept_count_unique(ticks: Seq<Tick>, until: Tick, count: int)
    requires
        0 <= count <= ticks.len(),
        count > 0 ==> later_than(ticks[count - 1], until),
        forall|j: int| count <= j < ticks.len() ==> !later_than(#[trigger] ticks[j], until),
    ensures
        kept_count(ticks, until) == count,
{
    lemma_kept_count(ticks, until);
}

/// What may be sent is a front part of the history that holds no tick yet
/// to come; the first entry behind it, if there is one, is of such a tick.
pub proof fn lemma_sendable_count(ticks: Seq<Tick>, sending: Tick)
    ensures
        0 <= sendable_count(ticks, sending) <= ticks.len(),
        forall|j: int|
            0 <= j < sendable_count(ticks, sending) ==> !later_than(#[trigger] ticks[j], sending),
        sendable_count(ticks, sending) < ticks.len() ==> later_than(
            ticks[sendable_count(ticks, sending)],
            sending,
        ),
    decreases ticks.len(),
{
    if !(ticks.len() == 0 || later_than(ticks[0], sending)) {
        let rest = ticks.drop_first();
        lemma_sendable_count(rest, sending);
        assert forall|j: int| 0 <= j < sendable_count(ticks, sending) implies !later_than(
            #[trigger] ticks[j],
            sending,
        ) by {
            if j > 0 {
                assert(ticks[j] == rest[j - 1]);
            }
        }
    }
}

/// The count is the only length of a front run of entries that may be sent
/// which ends at one that may not, or at the end.
pub proof fn lemma_sendable_count_unique(ticks: Seq<Tick>, sending: Tick, count: int)
    requires
        0 <= count <= ticks.len(),
        forall|j: int| 0 <= j < count ==> !later_than(#[trigger] ticks[j], sending),
        count < ticks.len() ==> later_than(ticks[count], sending),
    ensures
        sendable_count(ticks, sending) == count,
{
    lemma_sendable_count(ticks, sending);
}

/// The scan stops within the history or at its end; no entry in front of
/// where it stops has the tick or an older one, and the entry there has.
pub proof fn lemma_first_not_newer(ticks: Seq<Tick>, tick: Tick)
    ensures
        0 <= first_not_newer(ticks, tick) <= ticks.len(),
        forall|j: int|
            0 <= j < first_not_newer(ticks, tick) ==> ticks[j] != tick && !later_than(
                tick,
                ticks[j],
            ),
        first_not_newer(ticks, tick) < ticks.len() ==> {
            let at = first_not_newer(ticks, tick);
            ticks[at] == tick || later_than(tick, ticks[at])
        },
    decreases ticks.len(),
{
    if !(ticks.len() == 0 || ticks[0] == tick || later_than(tick, ticks[0])) {
        let rest = ticks.drop_first();
        lemma_first_not_newer(rest, tick);
        assert forall|j: int| 0 <= j < first_not_newer(ticks, tick) implies ticks[j] != tick
            && !later_than(tick, ticks[j]) by {
            if j > 0 {
                assert(ticks[j] == rest[j - 1]);
            }
        }
    }
}

/// The scan position is the only one with nothing at or before the tick in
/// front of it and such an entry, or the end, at it.
pub proof fn lemma_first_not_newer_unique(ticks: Seq<Tick>, tick: Tick, at: int)
    requires
        0 <= at <= ticks.len(),
        forall|j: int| 0 <= j < at ==> ticks[j] != tick && !later_than(tick, ticks[j]),
        at < ticks.len() ==> ticks[at] == tick || later_than(tick, ticks[at]),
    ensures
        first_not_newer(ticks, tick) == at,
{
    lemma_first_not_newer(ticks, tick);
}

/// In a descending history the scan finds the tick wherever it is held.
pub proof fn lemma_scan_finds(ticks: Seq<Tick>, tick: Tick, at: int)
    requires
        descending(ticks),
        0 <= at < ticks.len(),
        ticks[at] == tick,
    ensures
        first_not_newer(ticks, tick) == at,
{
    assert forall|j: int| 0 <= j < at implies ticks[j] != tick && !later_than(tick, ticks[j]) by {
        lemma_later_than_one_way(ticks[j], tick);
    }
    lemma_first_not_newer_unique(ticks, tick, at);
}

/// Whether a message sent at `tick` leaves the ticks of the history in
/// order: the history is empty, or its front is of this tick, or the tick
/// comes after the front and after the oldest entry that stays. That is
/// the last entry, or the last but one where the history is full and its
/// last entry makes room.
pub open spec fn push_keeps_order(history: History, tick: Tick) -> bool {
    history.len() == 0 || history[0].0 == tick || {
        let oldest = if history.len() < MESSAGE_HISTORY_SIZE {
            history.len() - 1
        } else {
            history.len() - 2
        };
        later_than(tick, history[0].0) && later_than(tick, history[oldest].0)
    }
}

/// After a send, whatever the tick, the front entry is of that tick and
/// the message is its last: it stands alone in a new entry, or behind the
/// messages that the front entry of that tick held before.
pub proof fn lemma_push_front(history: History, tick: Tick, message: MessageView)
    ensures
        after_push(history, tick, message).len() > 0,
        after_push(history, tick, message)[0].0 == tick,
        after_push(history, tick, message)[0].1 == (if history.len() > 0 && history[0].0
            == tick {
            history[0].1
        } else {
            Seq::empty()
        }).push(Some(message)),
        occupied(after_push(history, tick, message)[0].1) == 1 + (if history.len() > 0
            && history[0].0 == tick {
            occupied(history[0].1)
        } else {
            0
        }),
{
    if history.len() > 0 && history[0].0 == tick {
        lemma_occupied_push(history[0].1, Some(message));
    } else {
        lemma_occupied_push(Seq::empty(), Some(message));
        assert(seq![Some(message)] =~= Seq::<Option<MessageView>>::empty().push(Some(message)));
    }
}

/// From a history in order, the delivery of the only message that the
/// entry of a tick still holds takes that entry out: no entry of the tick
/// is left, and the others stay as they were.
pub proof fn lemma_delivery_reaps(history: History, at: int, id: MessageId)
    requires
        descending(ticks_of(history)),
        0 <= at < history.len(),
        occupied(cleared(history[at].1, id)) == 0,
    ensures
        after_delivery(history, history[at].0, id) == history.remove(at),
        forall|i: int|
            0 <= i < history.len() - 1 ==> (#[trigger] after_delivery(
                history,
                history[at].0,
                id,
            )[i]).0 != history[at].0,
{
    let ticks = ticks_of(history);
    let tick = history[at].0;
    lemma_scan_finds(ticks, tick, at);
    let after = history.remove(at);
    assert forall|i: int| 0 <= i < history.len() - 1 implies (#[trigger] after[i]).0 != tick by {
        let from = if i < at { i } else { i + 1 };
        assert(after[i] == history[from]);
        assert(ticks[from] == history[from].0 && ticks[at] == tick);
        if from < at {
            lemma_later_than_one_way(ticks[from], ticks[at]);
        } else {
            lemma_later_than_one_way(ticks[at], ticks[from]);
        }
    }
}

/// Sending keeps a bounded history without empty entries what it is.
pub proof fn lemma_push_keeps_wf(history: History, tick: Tick, message: MessageView)
    requires
        history_wf(history),
    ensures
        history_wf(after_push(history, tick, message)),
{
    let after = after_push(history, tick, message);
    assert forall|i: int| 0 <= i < after.len() implies occupied((#[trigger] after[i]).1) > 0 by {
        if history.len() > 0 && history[0].0 == tick {
            if i == 0 {
                lemma_occupied_push(history[0].1, Some(message));
            } else {
                assert(after[i] == history[i]);
            }
        } else {
            if i == 0 {
                lemma_occupied_push(Seq::empty(), Some(message));
                assert(seq![Some(message)] =~= Seq::<Option<MessageView>>::empty().push(
                    Some(message),
                ));
            } else {
                assert(after[i] == history[i - 1]);
            }
        }
    }
}

/// A delivery keeps a bounded history without empty entries what it is.
pub proof fn lemma_delivery_keeps_wf(history: History, tick: Tick, id: MessageId)
    requires
        history_wf(history),
    ensures
        history_wf(after_delivery(history, tick, id)),
{
    let after = after_delivery(history, tick, id);
    let at = first_not_newer(ticks_of(history), tick);
    lemma_first_not_newer(ticks_of(history), tick);
    assert forall|i: int| 0 <= i < after.len() implies occupied((#[trigger] after[i]).1) > 0 by {
        if at < history.len() && history[at].0 == tick {
            if occupied(cleared(history[at].1, id)) == 0 {
                if i < at {
                    assert(after[i] == history[i]);
                } else {
                    assert(after[i] == history[i + 1]);
                }
            } else {
                if i != at {
                    assert(after[i] == history[i]);
                }
            }
        }
    }
}

/// The ticks of an ordered history lie ever less far ahead of any tick
/// behind them, and all less than half the circle.
pub proof fn lemma_descending_offsets(ticks: Seq<Tick>, back: int)
    requires
        descending(ticks),
        0 <= back < ticks.len(),
    ensures
        forall|i: int|
            0 <= i <= back ==> 0 <= #[trigger] steps_forward(ticks[back], ticks[i]) < 0x8000,
        forall|i: int, j: int|
            0 <= i < j <= back ==> #[trigger] steps_forward(ticks[back], ticks[j])
                < #[trigger] steps_forward(ticks[back], ticks[i]),
{
    assert forall|i: int| 0 <= i <= back implies 0 <= #[trigger] steps_forward(
        ticks[back],
        ticks[i],
    ) < 0x8000 by {
        if i < back {
            assert(later_than(ticks[i], ticks[back]));
        }
    }
    assert forall|i: int, j: int| 0 <= i < j <= back implies #[trigger] steps_forward(
        ticks[back],
        ticks[j],
    ) < #[trigger] steps_forward(ticks[back], ticks[i]) by {
        assert(later_than(ticks[i], ticks[j]));
        assert(0 <= steps_forward(ticks[back], ticks[j]) < 0x8000);
        assert(0 <= steps_forward(ticks[back], ticks[i]) < 0x8000);
        lemma_order_by_offset(ticks[back], ticks[j], ticks[i]);
    }
}

/// A tick that comes after the front of an ordered history, and after one
/// of its entries, comes after all entries in front of that one.
#[verifier::spinoff_prover]
proof fn lemma_after_all_kept(ticks: Seq<Tick>, tick: Tick, back: int)
    requires
        descending(ticks),
        0 <= back < ticks.len(),
        later_than(tick, ticks[0]),
        later_than(tick, ticks[back]),
    ensures
        forall|j: int| 0 <= j <= back ==> later_than(tick, #[trigger] ticks[j]),
{
    let base = ticks[back];
    lemma_descending_offsets(ticks, back);
    assert(0 <= steps_forward(base, ticks[0]) < 0x8000);
    lemma_order_by_offset(base, ticks[0], tick);
    assert forall|j: int| 0 <= j <= back implies later_than(tick, #[trigger] ticks[j]) by {
        assert(0 <= steps_forward(base, ticks[j]) < 0x8000);
        if 0 < j {
            assert(steps_forward(base, ticks[j]) < steps_forward(base, ticks[0]));
        }
        lemma_order_by_offset(base, ticks[j], tick);
    }
}

/// Sending a message leaves the ticks of an ordered history in order if,
/// and only if, the tick lies in the history's window.
pub proof fn lemma_push_order(history: History, tick: Tick, message: MessageView)
    requires
        history.len() <= MESSAGE_HISTORY_SIZE,
        descending(ticks_of(history)),
    ensures
        descending(ticks_of(after_push(history, tick, message))) <==> push_keeps_order(
            history,
            tick,
        ),
{
    let ticks = ticks_of(history);
    let after = ticks_of(after_push(history, tick, message));
    if history.len() > 0 && history[0].0 == tick {
        assert(after =~= ticks);
    } else if history.len() > 0 {
        let oldest = if history.len() < MESSAGE_HISTORY_SIZE {
            history.len() - 1
        } else {
            history.len() - 2
        };
        assert(after =~= seq![tick] + ticks.take(oldest + 1));
        if push_keeps_order(history, tick) {
            assert(ticks[0] == history[0].0 && ticks[oldest] == history[oldest].0);
            lemma_after_all_kept(ticks, tick, oldest);
            assert forall|i: int, j: int| 0 <= i < j < after.len() implies later_than(
                after[i],
                after[j],
            ) by {
                if i == 0 {
                    assert(after[j] == ticks[j - 1]);
                } else {
                    assert(after[i] == ticks[i - 1] && after[j] == ticks[j - 1]);
                }
            }
        } else if descending(after) {
            assert(later_than(after[0], after[1]));
            assert(later_than(after[0], after[oldest + 1]));
        }
    } else {
        assert(after.len() == 1);
    }
}

/// A delivery leaves the ticks of an ordered history in order.
pub proof fn lemma_delivery_order(history: History, tick: Tick, id: MessageId)
    requires
        descending(ticks_of(history)),
    ensures
        descending(ticks_of(after_delivery(history, tick, id))),
{
    let ticks = ticks_of(history);
    let after = ticks_of(after_delivery(history, tick, id));
    let at = first_not_newer(ticks, tick);
    lemma_first_not_newer(ticks, tick);
    if at < history.len() && history[at].0 == tick {
        if occupied(cleared(history[at].1, id)) == 0 {
            assert forall|i: int, j: int| 0 <= i < j < after.len() implies later_than(
                after[i],
                after[j],
            ) by {
                let from = if i < at { i } else { i + 1 };
                let to = if j < at { j } else { j + 1 };
                assert(after[i] == ticks[from]);
                assert(after[j] == ticks[to]);
            }
        } else {
            assert(after =~= ticks);
        }
    }
}

/// Pruning leaves the ticks of an ordered history in order.
pub proof fn lemma_prune_order(history: History, until: Tick)
    requires
        descending(ticks_of(history)),
    ensures
        descending(ticks_of(after_prune(history, until))),
{
    let ticks = ticks_of(history);
    let after = ticks_of(after_prune(history, until));
    lemma_kept_count(ticks, until);
    assert forall|i: int, j: int| 0 <= i < j < after.len() implies later_than(
        after[i],
        after[j],
    ) by {
        assert(after[i] == ticks[i]);
        assert(after[j] == ticks[j]);
    }
}

/// Whether pruning up to `until` rids the history of every tick up to
/// `until`: nothing stays, or the front is not among those ticks.
pub open spec fn prune_is_clean(history: History, until: Tick) -> bool {
    kept_count(ticks_of(history), until) == 0 || !at_or_later_than(until, history[0].0)
}

/// After pruning an ordered history up to `until`, no entry of a tick up
/// to `until` is left if, and only if, the front was not of such a tick or
/// nothing stays at all.
#[verifier::spinoff_prover]
pub proof fn lemma_prune_drops_old(history: History, until: Tick)
    requires
        descending(ticks_of(history)),
    ensures
        (forall|i: int|
            0 <= i < after_prune(history, until).len() ==> !at_or_later_than(
                until,
                (#[trigger] after_prune(history, until)[i]).0,
            )) <==> prune_is_clean(history, until),
{
    let ticks = ticks_of(history);
    let kept = kept_count(ticks, until);
    let after = after_prune(history, until);
    lemma_kept_count(ticks, until);
    if kept > 0 {
        assert(after[0] == history[0]);
        assert(ticks[0] == history[0].0);
        if prune_is_clean(history, until) {
            let front = ticks[0];
            let back = ticks[kept - 1];
            assert forall|i: int| 0 <= i < after.len() implies !at_or_later_than(
                until,
                (#[trigger] after[i]).0,
            ) by {
                let held = ticks[i];
                assert(after[i] == history[i]);
                lemma_steps_round_trip(until, front);
                lemma_steps_round_trip(until, held);
                lemma_steps_round_trip(until, back);
                lemma_steps_chain(until, back, front);
                lemma_steps_chain(until, back, held);
                lemma_steps_chain(back, held, front);
                if i > 0 {
                    assert(later_than(front, held));
                }
                if i < kept - 1 {
                    assert(later_than(held, back));
                }
                if 0 < kept - 1 {
                    assert(later_than(front, back));
                }
            }
        }
    }
}

/// One step in the life of a history.
pub enum HistoryStep {
    /// A message was sent at a tick.
    Send(Tick, MessageView),
    /// A message of a tick was delivered.
    Delivered(Tick, MessageId),
}

/// The history after one step.
pub open spec fn after_step(history: History, step: HistoryStep) -> History {
    match step {
        HistoryStep::Send(tick, message) => after_push(history, tick, message),
        HistoryStep::Delivered(tick, id) => after_delivery(history, tick, id),
    }
}

/// The history after some steps, in their order.
pub open spec fn after_steps(history: History, steps: Seq<HistoryStep>) -> History
    decreases steps.len(),
{
    if steps.len() == 0 {
        history
    } else {
        after_step(after_steps(history, steps.drop_last()), steps.last())
    }
}

/// Whether every message of some steps is sent at a tick in the window
/// that the history has by then.
pub open spec fn sends_in_window(history: History, steps: Seq<HistoryStep>) -> bool
    decreases steps.len(),
{
    if steps.len() == 0 {
        true
    } else {
        &&& sends_in_window(history, steps.drop_last())
        &&& steps.last() matches HistoryStep::Send(tick, _) ==> push_keeps_order(
            after_steps(history, steps.drop_last()),
            tick,
        )
    }
}

/// After any run of sends and deliveries that begins with an empty
/// history, the history is bounded and has no empty entry; and where every
/// message was sent at a tick in the window of its time, the ticks come in
/// order, most recent first.
pub proof fn lemma_history_invariants(steps: Seq<HistoryStep>)
    ensures
        history_wf(after_steps(History::empty(), steps)),
        sends_in_window(History::empty(), steps) ==> descending(
            ticks_of(after_steps(History::empty(), steps)),
        ),
    decreases steps.len(),
{
    if steps.len() > 0 {
        let before = after_steps(History::empty(), steps.drop_last());
        lemma_history_invariants(steps.drop_last());
        match steps.last() {
            HistoryStep::Send(tick, message) => {
                lemma_push_keeps_wf(before, tick, message);
                if sends_in_window(History::empty(), steps) {
                    lemma_push_order(before, tick, message);
                }
            },
            HistoryStep::Delivered(tick, id) => {
                lemma_delivery_keeps_wf(before, tick, id);
                if sends_in_window(History::empty(), steps) {
                    lemma_delivery_order(before, tick, id);
                }
            },
        }
    }
}

/// The history is bounded and holds no entry without a message.
pub open spec fn history_wf(history: History) -> bool {
    &&& history.len() <= MESSAGE_HISTORY_SIZE
    &&& forall|i: int| 0 <= i < history.len() ==> occupied((#[trigger] history[i]).1) > 0
}

/// The sender's history of messages that may still have to be sent again.
pub struct OutgoingMessages {
    // front recent, back past
    buffer: VecDeque<(Tick, MessageMap)>,
}

impl View for OutgoingMessages {
    type V = History;

    closed spec fn view(&self) -> History {
        Seq::new(self.buffer@.len(), |i: int| (self.buffer@[i].0, self.buffer@[i].1@))
    }
}

impl OutgoingMessages {
    /// Every per-tick map keeps a true count of its messages.
    pub closed spec fn counts_agree(&self) -> bool {
        forall|i: int| 0 <= i < self.buffer@.len() ==> (#[trigger] self.buffer@[i]).1.wf()
    }

    /// The counts are true, the history is bounded, and no entry is without
    /// a message.
    pub open spec fn wf(&self) -> bool {
        &&& self.counts_agree()
        &&& history_wf(self@)
    }

    pub fn new() -> (r: OutgoingMessages)
        ensures
            r.wf(),
            r@ == History::empty(),
    {
        let r = OutgoingMessages { buffer: VecDeque::new() };
        assert(r@ =~= History::empty());
        r
    }

    /// The tick of the front entry, the most recent one.
    pub fn front_tick(&self) -> (r: Option<Tick>)
        ensures
            r == if self@.len() > 0 {
                Some(self@[0].0)
            } else {
                None
            },
    {
        if self.buffer.len() > 0 {
            Some(self.buffer[0].0)
        } else {
            None
        }
    }

    /// Records a message sent at `message_tick`, which must not be older than
    /// the front.
    pub fn push(&mut self, message_tick: Tick, message: Message)
        requires
            old(self).wf(),
            old(self)@.len() > 0 ==> at_or_later_than(message_tick, old(self)@[0].0),
        ensures
            final(self).wf(),
            final(self)@ == after_push(old(self)@, message_tick, message@),
    {
        let ghost before = self@;
        let ghost added = message@;
        if self.buffer.len() > 0 && self.buffer[0].0 == message_tick {
            let front = self.buffer.pop_front();
            let (tick, mut map) = front.unwrap();
            proof {
                lemma_occupied_push(map@, Some(added));
            }
            map.insert(message);
            self.buffer.push_front((tick, map));
            assert(self@ =~= after_push(before, message_tick, added));
            assert forall|i: int| 0 <= i < self@.len() implies occupied(
                (#[trigger] self@[i]).1,
            ) > 0 by {
                if i > 0 {
                    assert(self@[i] == before[i]);
                }
            }
            return ;
        }
        let mut map = MessageMap::new();
        proof {
            lemma_occupied_push(map@, Some(added));
        }
        map.insert(message);
        self.buffer.push_front((message_tick, map));
        let ghost grown = self@;
        assert(grown =~= seq![(message_tick, seq![Some(added)])] + before);
        assert(seq![Some(added)] =~= Seq::<Option<MessageView>>::empty().push(Some(added)));
        while self.buffer.len() > MESSAGE_HISTORY_SIZE as usize
            invariant
                self.counts_agree(),
                self@.len() <= grown.len(),
                self@ == grown.take(self@.len() as int),
                grown.len() > MESSAGE_HISTORY_SIZE ==> self@.len() >= MESSAGE_HISTORY_SIZE,
                grown.len() <= MESSAGE_HISTORY_SIZE ==> self@.len() == grown.len(),
            decreases self.buffer@.len(),
        {
            self.buffer.pop_back();
            assert(self@ =~= grown.take(self@.len() as int));
        }
        assert(grown.take(grown.len() as int) =~= grown);
        assert forall|i: int| 0 <= i < self@.len() implies occupied((#[trigger] self@[i]).1)
            > 0 by {
            if i > 0 {
                assert(self@[i] == before[i - 1]);
            }
        }
    }

    /// Drops from the back every entry up to the first that is newer than
    /// `until_tick`.
    pub fn pop_back_until_excluding(&mut self, until_tick: &Tick)
        requires
            old(self).wf(),
        ensures
            final(self).wf(),
            final(self)@ == after_prune(old(self)@, *until_tick),
    {
        let ghost before = self@;
        let ghost ticks = ticks_of(before);
        assert(before.take(before.len() as int) =~= before);
        loop
            invariant
                self.counts_agree(),
                ticks == ticks_of(before),
                self@.len() <= before.len(),
                self@ == before.take(self@.len() as int),
                forall|j: int|
                    self@.len() <= j < before.len() ==> !later_than(
                        #[trigger] ticks[j],
                        *until_tick,
                    ),
            ensures
                self.counts_agree(),
                self@.len() <= before.len(),
                self@ == before.take(self@.len() as int),
                self@.len() == kept_count(ticks, *until_tick),
            decreases self.buffer@.len(),
        {
            let count = self.buffer.len();
            if count == 0 {
                proof {
                    lemma_kept_count_unique(ticks, *until_tick, 0);
                }
                break ;
            }
            assert(self@[count - 1] == before[count - 1]);
            assert(ticks[count - 1] == before[count - 1].0);
            if sequence_greater_than(self.buffer[count - 1].0, *until_tick) {
                proof {
                    lemma_kept_count_unique(ticks, *until_tick, count as int);
                }
                break ;
            }
            self.buffer.pop_back();
            assert(self@ =~= before.take(self@.len() as int));
        }
    }

    /// The entries from front to back, each as its tick and the messages it
    /// still holds.
    pub fn iter(&self) -> (r: Vec<(Tick, Vec<(MessageId, Message)>)>)
        ensures
            r@.len() == self@.len(),
            forall|i: int|
                0 <= i < r@.len() ==> (#[trigger] r@[i]).0 == self@[i].0 && staged_view(r@[i].1@)
                    == live_entries(self@[i].1),
    {
        let mut output: Vec<(Tick, Vec<(MessageId, Message)>)> = Vec::new();
        let mut i: usize = 0;
        while i < self.buffer.len()
            invariant
                i <= self.buffer@.len(),
                self.buffer@.len() == self@.len(),
                output@.len() == i,
                forall|k: int|
                    0 <= k < i ==> (#[trigger] output@[k]).0 == self@[k].0 && staged_view(
                        output@[k].1@,
                    ) == live_entries(self@[k].1),
            decreases self.buffer@.len() - i,
        {
            let entry = &self.buffer[i];
            let messages = entry.1.collect_messages();
            output.push((entry.0, messages));
            i += 1;
        }
        output
    }

    /// Takes the acknowledged message `msg_id` of `tick` out of the history.
    pub fn remove_message(&mut self, tick: &Tick, msg_id: &MessageId)
        requires
            old(self).wf(),
        ensures
            final(self).wf(),
            final(self)@ == after_delivery(old(self)@, *tick, *msg_id),
    {
        let ghost before = self@;
        let ghost ticks = ticks_of(before);
        let mut index: usize = 0;
        proof {
            lemma_first_not_newer(ticks, *tick);
        }
        while index < self.buffer.len()
            invariant
                self@ == before,
                before == old(self)@,
                self.wf(),
                ticks == ticks_of(before),
                index <= self.buffer@.len(),
                self.buffer@.len() == before.len(),
                forall|j: int|
                    0 <= j < index ==> ticks[j] != *tick && !later_than(*tick, ticks[j]),
            decreases self.buffer@.len() - index,
        {
            let entry_tick = self.buffer[index].0;
            assert(entry_tick == ticks[index as int]);
            if entry_tick == *tick {
                proof {
                    lemma_first_not_newer_unique(ticks, *tick, index as int);
                }
                let taken = self.buffer.remove(index);
                let (held_tick, mut map) = taken.unwrap();
                map.remove(msg_id);
                if map.held() != 0 {
                    self.buffer.insert(index, (held_tick, map));
                    assert(self@ =~= after_delivery(before, *tick, *msg_id));
                    assert forall|i: int| 0 <= i < self@.len() implies occupied(
                        (#[trigger] self@[i]).1,
                    ) > 0 by {
                        if i != index {
                            assert(self@[i] == before[i]);
                        }
                    }
                } else {
                    assert(self@ =~= after_delivery(before, *tick, *msg_id));
                    assert forall|i: int| 0 <= i < self@.len() implies occupied(
                        (#[trigger] self@[i]).1,
                    ) > 0 by {
                        if i < index {
                            assert(self@[i] == before[i]);
                        } else {
                            assert(self@[i] == before[i + 1]);
                        }
                    }
                }
                return ;
            }
            if sequence_greater_than(*tick, entry_tick) {
                proof {
                    lemma_first_not_newer_unique(ticks, *tick, index as int);
                }
                return ;
            }
            index += 1;
        }
        proof {
            lemma_first_not_newer_unique(ticks, *tick, index as int);
        }
    }
}

} // verus!
