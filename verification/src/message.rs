//! Messages and the per-tick map that numbers them.

use vstd::prelude::*;

verus! {

/// The number a sender gives a message within its tick. It is stable across
/// retransmissions.
pub type MessageId = u64;

/// The low byte of a `MessageId`, which is what travels on the wire.
pub type ShortMessageId = u8;

/// A typed payload: the kind selects how the receiver reads the bytes.
#[derive(Clone, Debug, PartialEq, Eq)]
pub struct Message {
    pub kind: u16,
    pub payload: Vec<u8>,
}

/// What a `Message` holds, as mathematical values.
pub struct MessageView {
    pub kind: u16,
    pub payload: Seq<u8>,
}

impl View for Message {
    type V = MessageView;

    open spec fn view(&self) -> MessageView {
        MessageView { kind: self.kind, payload: self.payload@ }
    }
}

impl Message {
    pub fn new(kind: u16, payload: Vec<u8>) -> (r: Message)
        ensures
            r.kind == kind,
            r.payload == payload,
    {
        Message { kind, payload }
    }

    /// A copy that holds the same kind and the same bytes.
    pub fn duplicate(&self) -> (r: Message)
        ensures
            r@ == self@,
    {
        let mut payload: Vec<u8> = Vec::new();
        let mut i: usize = 0;
        while i < self.payload.len()
            invariant
                i <= self.payload.len(),
                payload@ == self.payload@.take(i as int),
            decreases self.payload.len() - i,
        {
            payload.push(self.payload[i]);
            i += 1;
            assert(self.payload@.take(i as int) =~= self.payload@.take(i - 1).push(
                self.payload@[i - 1],
            ));
        }
        assert(self.payload@.take(i as int) =~= self.payload@);
        Message { kind: self.kind, payload }
    }
}

/// The low byte of a message id.
pub open spec fn short_id(id: MessageId) -> ShortMessageId {
    (id % 256) as u8
}

/// How many slots of a sparse sequence are occupied.
pub open spec fn occupied<T>(slots: Seq<Option<T>>) -> nat
    decreases slots.len(),
{
    if slots.len() == 0 {
        0
    } else {
        occupied(slots.drop_last()) + if slots.last() is Some {
            1nat
        } else {
            0nat
        }
    }
}

/// The occupied slots of a sparse sequence, each with its position, in order.
pub open spec fn live_entries<T>(slots: Seq<Option<T>>) -> Seq<(MessageId, T)>
    decreases slots.len(),
{
    if slots.len() == 0 {
        Seq::empty()
    } else {
        let before = live_entries(slots.drop_last());
        match slots.last() {
            Some(m) => before.push(((slots.len() - 1) as MessageId, m)),
            None => before,
        }
    }
}

/// No more slots are occupied than there are; none is where, and only
/// where, all are empty; and there is one live entry for each.
pub proof fn lemma_occupied_bounds<T>(slots: Seq<Option<T>>)
    ensures
        occupied(slots) <= slots.len(),
        occupied(slots) == 0 <==> (forall|i: int| 0 <= i < slots.len() ==> slots[i] is None),
        live_entries(slots).len() == occupied(slots),
    decreases slots.len(),
{
    if slots.len() > 0 {
        let before = slots.drop_last();
        lemma_occupied_bounds(before);
        if occupied(slots) == 0 {
            assert forall|i: int| 0 <= i < slots.len() implies slots[i] is None by {
                if i < before.len() {
                    assert(before[i] is None);
                }
            }
        }
        if forall|i: int| 0 <= i < slots.len() ==> slots[i] is None {
            assert forall|i: int| 0 <= i < before.len() implies before[i] is None by {
                assert(slots[i] is None);
            }
        }
    }
}

/// One more slot at the end counts where it is occupied.
pub proof fn lemma_occupied_push<T>(slots: Seq<Option<T>>, slot: Option<T>)
    ensures
        occupied(slots.push(slot)) == occupied(slots) + if slot is Some {
            1nat
        } else {
            0nat
        },
{
    assert(slots.push(slot).drop_last() =~= slots);
}

/// Emptying a slot takes one from the count where it was occupied.
pub proof fn lemma_occupied_clear<T>(slots: Seq<Option<T>>, at: int)
    requires
        0 <= at < slots.len(),
    ensures
        occupied(slots.update(at, None)) + (if slots[at] is Some {
            1nat
        } else {
            0nat
        }) == occupied(slots),
    decreases slots.len(),
{
    let cleared = slots.update(at, None);
    if at == slots.len() - 1 {
        assert(cleared.drop_last() =~= slots.drop_last());
    } else {
        lemma_occupied_clear(slots.drop_last(), at);
        assert(cleared.drop_last() =~= slots.drop_last().update(at, None));
    }
}

/// An append-only sparse sequence of messages. A message keeps the position
/// it was appended at; removing it leaves a hole, so positions are never
/// handed out twice.
pub struct MessageMap {
    list: Vec<Option<Message>>,
    live: usize,
}

impl View for MessageMap {
    type V = Seq<Option<MessageView>>;

    closed spec fn view(&self) -> Seq<Option<MessageView>> {
        Seq::new(
            self.list@.len(),
            |i: int|
                match self.list@[i] {
                    Some(m) => Some(m@),
                    None => None,
                },
        )
    }
}

impl MessageMap {
    /// The stored count of occupied slots agrees with the slots.
    pub closed spec fn wf(&self) -> bool {
        self.live == occupied(self@)
    }

    pub fn new() -> (r: MessageMap)
        ensures
            r.wf(),
            r@ == Seq::<Option<MessageView>>::empty(),
    {
        let r = MessageMap { list: Vec::new(), live: 0 };
        assert(r@ =~= Seq::<Option<MessageView>>::empty());
        r
    }

    /// Appends the message at the next position.
    pub fn insert(&mut self, message: Message)
        requires
            old(self).wf(),
        ensures
            final(self).wf(),
            final(self)@ == old(self)@.push(Some(message@)),
    {
        proof {
            lemma_occupied_bounds(self@);
            lemma_occupied_push(self@, Some(message@));
        }
        let ghost before = self@;
        let ghost added = message@;
        self.list.push(Some(message));
        assert(self.live < self.list.len());
        self.live = self.live + 1;
        assert(self@ =~= before.push(Some(added)));
    }

    /// Every message still held, with its position, in the order of insertion.
    pub fn collect_messages(&self) -> (r: Vec<(MessageId, Message)>)
        ensures
            staged_view(r@) == live_entries(self@),
    {
        let mut output: Vec<(MessageId, Message)> = Vec::new();
        let mut i: usize = 0;
        assert(self@.take(0) =~= Seq::empty());
        assert(staged_view(output@) =~= Seq::empty());
        while i < self.list.len()
            invariant
                i <= self.list.len(),
                self.list@.len() == self@.len(),
                staged_view(output@) == live_entries(self@.take(i as int)),
            decreases self.list.len() - i,
        {
            let ghost prior = output@;
            assert(self@.take(i + 1).drop_last() =~= self@.take(i as int));
            match &self.list[i] {
                Some(message) => {
                    output.push((i as u64, message.duplicate()));
                    assert(staged_view(output@) =~= staged_view(prior).push(
                        (i as u64, message@),
                    ));
                },
                None => {},
            }
            i += 1;
        }
        assert(self@.take(i as int) =~= self@);
        output
    }

    /// Empties the slot at `message_id`; an id past the end changes nothing.
    pub fn remove(&mut self, message_id: &MessageId)
        requires
            old(self).wf(),
        ensures
            final(self).wf(),
            final(self)@ == cleared(old(self)@, *message_id),
    {
        let ghost before = self@;
        if *message_id < self.list.len() as u64 {
            let at: usize = *message_id as usize;
            proof {
                lemma_occupied_clear(before, at as int);
                lemma_occupied_bounds(before);
            }
            if self.list[at].is_some() {
                self.list.set(at, None);
                self.live = self.live - 1;
            }
            assert(self@ =~= before.update(at as int, None));
        }
    }

    /// How many positions have been handed out: the position that the
    /// next message gets. A position whose message was removed still counts.
    pub fn len(&self) -> (r: usize)
        ensures
            r == self@.len(),
    {
        self.list.len()
    }

    /// How many messages are still held.
    pub fn held(&self) -> (r: usize)
        requires
            self.wf(),
        ensures
            r == occupied(self@),
    {
        self.live
    }
}

/// A sparse sequence after the slot at `id` was emptied.
pub open spec fn cleared(slots: Seq<Option<MessageView>>, id: MessageId) -> Seq<
    Option<MessageView>,
> {
    if id < slots.len() {
        slots.update(id as int, None)
    } else {
        slots
    }
}

/// What a list of numbered messages holds, as mathematical values.
pub open spec fn staged_view(messages: Seq<(MessageId, Message)>) -> Seq<(MessageId, MessageView)> {
    Seq::new(messages.len(), |i: int| (messages[i].0, messages[i].1@))
}

} // verus!
