//! How messages and groups of messages are laid out in a packet.

use crate::bits::{
    BitReader, BitWriter, MTU_SIZE_BITS, MTU_SIZE_BYTES, SerdeErr, bits_of_bytes, bits_of_value,
    lemma_bits_of_bytes_push, lemma_bits_of_value_of, lemma_value_of_bits, value_of,
};
use crate::incoming::Arrivals;
use crate::message::{Message, MessageId, MessageView, short_id};
use crate::message_list_header::{lemma_list_header_round_trip, list_header_bits, list_header_parse};
use crate::tick::{Tick, steps_forward};
use crate::varint::{
    MAX_GROUPS, lemma_varint_groups, lemma_varint_parse_bound, lemma_varint_round_trip, read_varint,
    varint_bits, varint_groups, varint_len, varint_parse, write_varint,
};
use crate::wire::Serde;
use vstd::arithmetic::power2::{lemma2_to64, lemma2_to64_rest, lemma_pow2_unfold};
use vstd::prelude::*;

verus! {

/// The bits that stand for a message: its kind, the length of its payload
/// and the payload.
pub open spec fn message_bits(message: MessageView) -> Seq<bool> {
    bits_of_value(message.kind as nat, 16) + varint_bits(message.payload.len()) + bits_of_bytes(
        message.payload,
    )
}

/// The bytes that a run of bits packs into, eight bits each.
pub open spec fn bytes_of_bits(bits: Seq<bool>) -> Seq<u8> {
    Seq::new(bits.len() / 8, |i: int| value_of(bits.subrange(8 * i, 8 * i + 8)) as u8)
}

/// The message that the coming bits stand for, and the bits behind it.
pub open spec fn parse_message(bits: Seq<bool>) -> Option<(MessageView, Seq<bool>)> {
    if bits.len() < 16 {
        None
    } else {
        match varint_parse(bits.skip(16), MAX_GROUPS as nat) {
            Some((length, rest)) => if 8 * length <= rest.len() {
                Some(
                    (
                        MessageView {
                            kind: value_of(bits.take(16)) as u16,
                            payload: bytes_of_bits(rest.take(8 * length as int)),
                        },
                        rest.skip(8 * length as int),
                    ),
                )
            } else {
                None
            },
            None => None,
        }
    }
}

/// Each byte takes eight bits of the stream of a run of bytes, its own.
pub proof fn lemma_bits_of_bytes_at(bytes: Seq<u8>, at: int)
    requires
        0 <= at < bytes.len(),
    ensures
        bits_of_bytes(bytes).subrange(8 * at, 8 * at + 8) == bits_of_value(bytes[at] as nat, 8),
{
    assert(bits_of_bytes(bytes).subrange(8 * at, 8 * at + 8) =~= bits_of_value(
        bytes[at] as nat,
        8,
    ));
}

/// Bytes that were unpacked into bits pack into the same bytes.
pub proof fn lemma_bytes_round_trip(bytes: Seq<u8>)
    ensures
        bytes_of_bits(bits_of_bytes(bytes)) == bytes,
{
    let packed = bytes_of_bits(bits_of_bytes(bytes));
    assert forall|i: int| 0 <= i < bytes.len() implies packed[i] == bytes[i] by {
        lemma_bits_of_bytes_at(bytes, i);
        lemma2_to64();
        lemma_value_of_bits(bytes[i] as nat, 8);
    }
    assert(packed =~= bytes);
}

/// Whole bytes of bits that were packed unpack into the same bits.
pub proof fn lemma_bits_round_trip(bits: Seq<bool>)
    requires
        bits.len() % 8 == 0,
    ensures
        bits_of_bytes(bytes_of_bits(bits)) == bits,
{
    let bytes = bytes_of_bits(bits);
    let unpacked = bits_of_bytes(bytes);
    assert forall|i: int| 0 <= i < bits.len() implies unpacked[i] == bits[i] by {
        let at = i / 8;
        let eight = bits.subrange(8 * at, 8 * at + 8);
        lemma_bits_of_value_of(eight);
        lemma2_to64();
        lemma_bits_of_bytes_at(bytes, at);
        assert(unpacked[i] == unpacked.subrange(8 * at, 8 * at + 8)[i - 8 * at]);
        assert(bits[i] == eight[i - 8 * at]);
    }
    assert(unpacked =~= bits);
}

/// A length that a payload can have takes `MAX_GROUPS` groups at most.
pub proof fn lemma_length_groups(length: nat)
    requires
        length <= u64::MAX,
    ensures
        varint_groups(length) <= MAX_GROUPS,
{
    lemma2_to64_rest();
    lemma_pow2_unfold(66);
    lemma_pow2_unfold(65);
    lemma_varint_groups(length, 22);
}

/// A message that was written is the message that is read, and what stood
/// behind it is what is left.
pub proof fn lemma_message_round_trip(message: MessageView, rest: Seq<bool>)
    requires
        message.payload.len() <= u64::MAX,
    ensures
        parse_message(message_bits(message) + rest) == Some((message, rest)),
{
    let stream = message_bits(message) + rest;
    let payload_bits = bits_of_bytes(message.payload);
    lemma2_to64();
    assert(stream.take(16) =~= bits_of_value(message.kind as nat, 16));
    lemma_value_of_bits(message.kind as nat, 16);
    assert(stream.skip(16) =~= varint_bits(message.payload.len()) + (payload_bits + rest));
    lemma_length_groups(message.payload.len());
    lemma_varint_round_trip(message.payload.len(), payload_bits + rest, MAX_GROUPS as nat);
    assert((payload_bits + rest).take(8 * message.payload.len() as int) =~= payload_bits);
    assert((payload_bits + rest).skip(8 * message.payload.len() as int) =~= rest);
    lemma_bytes_round_trip(message.payload);
}

/// Appends the bytes, eight bits each.
pub fn write_bytes(writer: &mut BitWriter, bytes: &Vec<u8>)
    requires
        old(writer).wf(),
        8 * bytes@.len() <= old(writer).room(),
    ensures
        final(writer).wf(),
        final(writer)@ == old(writer)@ + bits_of_bytes(bytes@),
        final(writer).reserved() == old(writer).reserved(),
{
    let ghost head = writer@;
    let mut i: usize = 0;
    assert(bytes@.take(0) =~= Seq::<u8>::empty());
    assert(head + bits_of_bytes(bytes@.take(0)) =~= head);
    while i < bytes.len()
        invariant
            i <= bytes@.len(),
            writer.wf(),
            writer.reserved() == old(writer).reserved(),
            head.len() + 8 * bytes@.len() + writer.reserved() <= MTU_SIZE_BITS,
            writer@ == head + bits_of_bytes(bytes@.take(i as int)),
        decreases bytes@.len() - i,
    {
        proof {
            lemma_bits_of_bytes_push(bytes@.take(i as int), bytes@[i as int]);
            assert(bytes@.take(i + 1) =~= bytes@.take(i as int).push(bytes@[i as int]));
        }
        bytes[i].ser(writer);
        i += 1;
        assert(writer@ =~= head + bits_of_bytes(bytes@.take(i as int)));
    }
    assert(bytes@.take(i as int) =~= bytes@);
}

/// Reads `count` bytes, eight bits each. Where fewer are left, nothing is
/// read.
pub fn read_bytes(reader: &mut BitReader, count: usize) -> (r: Result<Vec<u8>, SerdeErr>)
    requires
        old(reader).wf(),
    ensures
        final(reader).wf(),
        match r {
            Ok(bytes) => {
                &&& 8 * count <= old(reader)@.len()
                &&& bytes@ == bytes_of_bits(old(reader)@.take(8 * count))
                &&& final(reader)@ == old(reader)@.skip(8 * count)
            },
            Err(_) => old(reader)@.len() < 8 * count && final(reader)@ == old(reader)@,
        },
{
    if !reader.has_bytes(count) {
        return Err(SerdeErr);
    }
    let ghost body = reader@;
    let mut bytes: Vec<u8> = Vec::new();
    let mut i: usize = 0;
    assert(body.skip(0) =~= body);
    assert(bytes_of_bits(body.take(0)) =~= Seq::<u8>::empty());
    while i < count
        invariant
            i <= count,
            8 * count <= body.len(),
            reader.wf(),
            reader@ == body.skip(8 * i),
            bytes@ == bytes_of_bits(body.take(8 * i)),
        decreases count - i,
    {
        let byte = match reader.read_bits(8) {
            Ok(value) => value,
            Err(_) => 0,
        };
        proof {
            lemma2_to64();
            assert(body.skip(8 * i).take(8) =~= body.subrange(8 * i, 8 * i + 8));
            lemma_bits_of_value_of(body.subrange(8 * i, 8 * i + 8));
            assert(body.skip(8 * i).skip(8) =~= body.skip(8 * (i + 1)));
        }
        bytes.push(byte as u8);
        proof {
            let wider = bytes_of_bits(body.take(8 * (i + 1)));
            assert forall|k: int| 0 <= k < wider.len() implies wider[k] == bytes@[k] by {
                assert(body.take(8 * (i + 1)).subrange(8 * k, 8 * k + 8) =~= body.subrange(
                    8 * k,
                    8 * k + 8,
                ));
                if k < i {
                    assert(body.take(8 * i).subrange(8 * k, 8 * k + 8) =~= body.subrange(
                        8 * k,
                        8 * k + 8,
                    ));
                }
            }
            assert(bytes@ =~= wider);
        }
        i += 1;
    }
    Ok(bytes)
}

impl Message {
    /// How many bits the message takes, where it fits in a packet at all.
    pub fn bit_len(&self) -> (r: Option<usize>)
        ensures
            match r {
                Some(count) => count == message_bits(self@).len() && count <= MTU_SIZE_BITS,
                None => message_bits(self@).len() > MTU_SIZE_BITS,
            },
    {
        let length = self.payload.len();
        if length > MTU_SIZE_BYTES {
            return None;
        }
        let count = 16 + varint_len(length as u64) + 8 * length;
        if count > MTU_SIZE_BITS {
            None
        } else {
            Some(count)
        }
    }

    /// Appends the message.
    pub fn write(&self, writer: &mut BitWriter)
        requires
            old(writer).wf(),
            message_bits(self@).len() <= old(writer).room(),
        ensures
            final(writer).wf(),
            final(writer)@ == old(writer)@ + message_bits(self@),
            final(writer).reserved() == old(writer).reserved(),
    {
        let ghost before = writer@;
        self.kind.ser(writer);
        write_varint(writer, self.payload.len() as u64);
        write_bytes(writer, &self.payload);
        assert(writer@ =~= before + message_bits(self@));
    }

    /// Reads a message.
    pub fn read(reader: &mut BitReader) -> (r: Result<Message, SerdeErr>)
        requires
            old(reader).wf(),
        ensures
            final(reader).wf(),
            match r {
                Ok(message) => parse_message(old(reader)@) == Some((message@, final(reader)@)),
                Err(_) => parse_message(old(reader)@) is None,
            },
    {
        let ghost before = reader@;
        proof {
            reader.lemma_len_bound();
        }
        let kind = reader.read_bits(16)?;
        proof {
            lemma2_to64();
            lemma_bits_of_value_of(before.take(16));
        }
        let length = match read_varint(reader) {
            Ok(value) => value,
            Err(e) => {
                proof {
                    // a length past 64 bits is longer than any packet
                    lemma_varint_parse_bound(before.skip(16), MAX_GROUPS as nat);
                }
                return Err(e);
            },
        };
        proof {
            reader.lemma_len_bound();
        }
        if length > usize::MAX as u64 {
            return Err(SerdeErr);
        }
        match read_bytes(reader, length as usize) {
            Ok(payload) => Ok(Message { kind: kind as u16, payload }),
            Err(e) => Err(e),
        }
    }
}

/// The messages of one tick as the sender holds them, each with its id.
pub type Staged = Seq<(MessageId, MessageView)>;

/// The bits that stand for one message of a group: the low byte of its id,
/// then the message.
pub open spec fn entry_bits(id: MessageId, message: MessageView) -> Seq<bool> {
    bits_of_value(short_id(id) as nat, 8) + message_bits(message)
}

/// The bits that stand for the messages of a group, one after the other.
pub open spec fn entries_bits(entries: Staged) -> Seq<bool>
    decreases entries.len(),
{
    if entries.len() == 0 {
        Seq::empty()
    } else {
        entry_bits(entries[0].0, entries[0].1) + entries_bits(entries.drop_first())
    }
}

/// The messages as the receiver sees them: each with the low byte of its id.
pub open spec fn shortened(entries: Staged) -> Arrivals {
    Seq::new(entries.len(), |i: int| (short_id(entries[i].0), entries[i].1))
}

/// The `count` messages that the coming bits stand for, and the bits behind.
pub open spec fn parse_entries(bits: Seq<bool>, count: nat) -> Option<(Arrivals, Seq<bool>)>
    decreases count,
{
    if count == 0 {
        Some((Seq::empty(), bits))
    } else if bits.len() < 8 {
        None
    } else {
        match parse_message(bits.skip(8)) {
            Some((message, rest)) => match parse_entries(rest, (count - 1) as nat) {
                Some((others, behind)) => Some(
                    (seq![(value_of(bits.take(8)) as u8, message)] + others, behind),
                ),
                None => None,
            },
            None => None,
        }
    }
}

/// The tick that lies `steps` steps before `tick`.
pub open spec fn tick_before(tick: Tick, steps: nat) -> Tick {
    ((tick as int - steps as int) % 0x1_0000) as u16
}

/// The bits that stand for the messages of `tick`, in a packet whose last
/// written tick is `last_tick`: how many steps the tick lies before that
/// one, how many messages there are, and the messages.
pub open spec fn group_bits(last_tick: Tick, tick: Tick, entries: Staged) -> Seq<bool> {
    varint_bits(steps_forward(tick, last_tick) as nat) + varint_bits(entries.len())
        + entries_bits(entries)
}

/// The group that the coming bits stand for, and the bits behind it.
pub open spec fn parse_group(bits: Seq<bool>, last_tick: Tick) -> Option<
    ((Tick, Arrivals), Seq<bool>),
> {
    match varint_parse(bits, MAX_GROUPS as nat) {
        Some((steps, rest)) => if steps > u16::MAX {
            None
        } else {
            match varint_parse(rest, MAX_GROUPS as nat) {
                Some((count, body)) => match parse_entries(body, count) {
                    Some((entries, behind)) => Some(
                        ((tick_before(last_tick, steps), entries), behind),
                    ),
                    None => None,
                },
                None => None,
            }
        },
        None => None,
    }
}

/// The bits that stand for a run of groups. Each group's tick is written
/// as the distance from the one before it, the first from `baseline`.
pub open spec fn groups_bits(baseline: Tick, groups: Seq<(Tick, Staged)>) -> Seq<bool>
    decreases groups.len(),
{
    if groups.len() == 0 {
        Seq::empty()
    } else {
        group_bits(baseline, groups[0].0, groups[0].1) + groups_bits(
            groups[0].0,
            groups.drop_first(),
        )
    }
}

/// The `count` groups that the coming bits stand for, and the bits behind.
pub open spec fn parse_groups(bits: Seq<bool>, baseline: Tick, count: nat) -> Option<
    (Seq<(Tick, Arrivals)>, Seq<bool>),
>
    decreases count,
{
    if count == 0 {
        Some((Seq::empty(), bits))
    } else {
        match parse_group(bits, baseline) {
            Some((group, rest)) => match parse_groups(rest, group.0, (count - 1) as nat) {
                Some((others, behind)) => Some((seq![group] + others, behind)),
                None => None,
            },
            None => None,
        }
    }
}

/// The groups as the receiver sees them.
pub open spec fn groups_shortened(groups: Seq<(Tick, Staged)>) -> Seq<(Tick, Arrivals)> {
    Seq::new(groups.len(), |i: int| (groups[i].0, shortened(groups[i].1)))
}

/// No payload is longer than a length field can say.
pub open spec fn lengths_fit(entries: Staged) -> bool {
    forall|i: int| 0 <= i < entries.len() ==> (#[trigger] entries[i]).1.payload.len() <= u64::MAX
}

/// The bits of some messages and one more are those of the messages,
/// followed by those of the one.
pub proof fn lemma_entries_bits_push(entries: Staged, id: MessageId, message: MessageView)
    ensures
        entries_bits(entries.push((id, message))) == entries_bits(entries) + entry_bits(
            id,
            message,
        ),
    decreases entries.len(),
{
    let longer = entries.push((id, message));
    if entries.len() == 0 {
        assert(longer.drop_first() =~= Seq::<(MessageId, MessageView)>::empty());
        assert(entries_bits(longer.drop_first()) =~= Seq::<bool>::empty());
        assert(entries_bits(longer) =~= entries_bits(entries) + entry_bits(id, message));
    } else {
        assert(longer.drop_first() =~= entries.drop_first().push((id, message)));
        lemma_entries_bits_push(entries.drop_first(), id, message);
        assert(entries_bits(longer) =~= entries_bits(entries) + entry_bits(id, message));
    }
}

/// Messages that were written are the messages that are read, each under
/// the low byte of its id, and what stood behind them is what is left.
pub proof fn lemma_entries_round_trip(entries: Staged, rest: Seq<bool>)
    requires
        lengths_fit(entries),
    ensures
        parse_entries(entries_bits(entries) + rest, entries.len()) == Some(
            (shortened(entries), rest),
        ),
    decreases entries.len(),
{
    let stream = entries_bits(entries) + rest;
    if entries.len() == 0 {
        assert(stream =~= rest);
        assert(shortened(entries) =~= Seq::empty());
    } else {
        let id = short_id(entries[0].0);
        let message = entries[0].1;
        let others = entries.drop_first();
        let behind = entries_bits(others) + rest;
        lemma2_to64();
        assert(stream.take(8) =~= bits_of_value(id as nat, 8));
        lemma_value_of_bits(id as nat, 8);
        assert(stream.skip(8) =~= message_bits(message) + behind);
        lemma_message_round_trip(message, behind);
        assert forall|i: int| 0 <= i < others.len() implies (#[trigger] others[i]).1.payload.len()
            <= u64::MAX by {
            assert(others[i] == entries[i + 1]);
        }
        lemma_entries_round_trip(others, rest);
        assert(seq![(id, message)] + shortened(others) =~= shortened(entries));
    }
}

/// Going back from a tick by the steps that lead to it from another tick
/// ends at that other tick.
pub proof fn lemma_tick_before_steps(last_tick: Tick, tick: Tick)
    ensures
        0 <= steps_forward(tick, last_tick) <= u16::MAX,
        tick_before(last_tick, steps_forward(tick, last_tick) as nat) == tick,
{
}

/// A group that was written is the group that is read, whatever the two
/// ticks, and what stood behind it is what is left.
pub proof fn lemma_group_round_trip(
    last_tick: Tick,
    tick: Tick,
    entries: Staged,
    rest: Seq<bool>,
)
    requires
        lengths_fit(entries),
        entries.len() <= u64::MAX,
    ensures
        parse_group(group_bits(last_tick, tick, entries) + rest, last_tick) == Some(
            ((tick, shortened(entries)), rest),
        ),
{
    let steps = steps_forward(tick, last_tick) as nat;
    let body = entries_bits(entries) + rest;
    let counted = varint_bits(entries.len()) + body;
    let stream = group_bits(last_tick, tick, entries) + rest;
    lemma_tick_before_steps(last_tick, tick);
    assert(stream =~= varint_bits(steps) + counted);
    assert(varint_parse(stream, MAX_GROUPS as nat) == Some((steps, counted))) by {
        lemma_length_groups(steps);
        lemma_varint_round_trip(steps, counted, MAX_GROUPS as nat);
    }
    assert(varint_parse(counted, MAX_GROUPS as nat) == Some((entries.len(), body))) by {
        lemma_length_groups(entries.len());
        lemma_varint_round_trip(entries.len(), body, MAX_GROUPS as nat);
    }
    assert(parse_entries(body, entries.len()) == Some((shortened(entries), rest))) by {
        lemma_entries_round_trip(entries, rest);
    }
}

/// Groups that were written one after the other are the groups that are
/// read, and what stood behind them is what is left.
pub proof fn lemma_groups_round_trip(
    baseline: Tick,
    groups: Seq<(Tick, Staged)>,
    rest: Seq<bool>,
)
    requires
        forall|i: int|
            0 <= i < groups.len() ==> lengths_fit((#[trigger] groups[i]).1) && groups[i].1.len()
                <= u64::MAX,
    ensures
        parse_groups(groups_bits(baseline, groups) + rest, baseline, groups.len()) == Some(
            (groups_shortened(groups), rest),
        ),
    decreases groups.len(),
{
    let stream = groups_bits(baseline, groups) + rest;
    if groups.len() == 0 {
        assert(stream =~= rest);
        assert(groups_shortened(groups) =~= Seq::empty());
    } else {
        let others = groups.drop_first();
        let behind = groups_bits(groups[0].0, others) + rest;
        assert(stream =~= group_bits(baseline, groups[0].0, groups[0].1) + behind);
        lemma_group_round_trip(baseline, groups[0].0, groups[0].1, behind);
        assert forall|i: int| 0 <= i < others.len() implies lengths_fit(
            (#[trigger] others[i]).1,
        ) && others[i].1.len() <= u64::MAX by {
            assert(others[i] == groups[i + 1]);
        }
        lemma_groups_round_trip(groups[0].0, others, rest);
        assert(seq![(groups[0].0, shortened(groups[0].1))] + groups_shortened(others)
            =~= groups_shortened(groups));
    }
}

/// The bits of some groups and one more are those of the groups, followed
/// by those of the one, written from the last tick of the groups.
pub proof fn lemma_groups_bits_push(
    baseline: Tick,
    groups: Seq<(Tick, Staged)>,
    tick: Tick,
    entries: Staged,
)
    ensures
        groups_bits(baseline, groups.push((tick, entries))) == groups_bits(baseline, groups)
            + group_bits(last_tick_of(baseline, groups), tick, entries),
    decreases groups.len(),
{
    let longer = groups.push((tick, entries));
    if groups.len() == 0 {
        assert(longer.drop_first() =~= Seq::<(Tick, Staged)>::empty());
        assert(groups_bits(tick, longer.drop_first()) =~= Seq::<bool>::empty());
        assert(groups_bits(baseline, longer) =~= groups_bits(baseline, groups) + group_bits(
            baseline,
            tick,
            entries,
        ));
    } else {
        assert(longer.drop_first() =~= groups.drop_first().push((tick, entries)));
        lemma_groups_bits_push(groups[0].0, groups.drop_first(), tick, entries);
        assert(last_tick_of(groups[0].0, groups.drop_first()) == last_tick_of(baseline, groups));
        assert(groups_bits(baseline, longer) =~= groups_bits(baseline, groups) + group_bits(
            last_tick_of(baseline, groups),
            tick,
            entries,
        ));
    }
}

/// The tick that the next group's distance is counted from: that of the
/// last group, or the baseline where there is none yet.
pub open spec fn last_tick_of(baseline: Tick, groups: Seq<(Tick, Staged)>) -> Tick {
    if groups.len() == 0 {
        baseline
    } else {
        groups.last().0
    }
}

/// The bits of some leading messages lead the bits of all of them.
pub proof fn lemma_entries_bits_split(entries: Staged, at: int)
    requires
        0 <= at <= entries.len(),
    ensures
        entries_bits(entries) == entries_bits(entries.take(at)) + entries_bits(entries.skip(at)),
    decreases at,
{
    if at == 0 {
        assert(entries.take(0) =~= Seq::<(MessageId, MessageView)>::empty());
        assert(entries.skip(0) =~= entries);
        assert(entries_bits(entries) =~= entries_bits(entries.take(at)) + entries_bits(
            entries.skip(at),
        ));
    } else {
        let others = entries.drop_first();
        lemma_entries_bits_split(others, at - 1);
        assert(entries.take(at).drop_first() =~= others.take(at - 1));
        assert(entries.skip(at) =~= others.skip(at - 1));
        assert(entries_bits(entries) =~= entries_bits(entries.take(at)) + entries_bits(
            entries.skip(at),
        ));
    }
}

/// More leading groups take no fewer bits.
pub proof fn lemma_groups_bits_grow(baseline: Tick, groups: Seq<(Tick, Staged)>, a: int, b: int)
    requires
        0 <= a <= b <= groups.len(),
    ensures
        groups_bits(baseline, groups.take(a)).len() <= groups_bits(baseline, groups.take(b)).len(),
    decreases b - a,
{
    if a < b {
        lemma_groups_bits_grow(baseline, groups, a, b - 1);
        assert(groups.take(b) =~= groups.take(b - 1).push(groups[b - 1]));
        lemma_groups_bits_push(baseline, groups.take(b - 1), groups[b - 1].0, groups[b - 1].1);
    }
}

/// The bits that stand for a list of groups: their count, then the groups.
pub open spec fn message_list_bits(baseline: Tick, groups: Seq<(Tick, Staged)>) -> Seq<bool> {
    list_header_bits(groups.len() as u16) + groups_bits(baseline, groups)
}

/// The list of groups that the coming bits stand for, and the bits behind.
pub open spec fn parse_message_list(bits: Seq<bool>, baseline: Tick) -> Option<
    (Seq<(Tick, Arrivals)>, Seq<bool>),
> {
    match list_header_parse(bits) {
        Some((count, rest)) => parse_groups(rest, baseline, count as nat),
        None => None,
    }
}

/// A list of groups that was written is the list that is read, and what
/// stood behind it is what is left.
pub proof fn lemma_message_list_round_trip(
    baseline: Tick,
    groups: Seq<(Tick, Staged)>,
    rest: Seq<bool>,
)
    requires
        groups.len() <= u16::MAX,
        forall|i: int|
            0 <= i < groups.len() ==> lengths_fit((#[trigger] groups[i]).1) && groups[i].1.len()
                <= u64::MAX,
    ensures
        parse_message_list(message_list_bits(baseline, groups) + rest, baseline) == Some(
            (groups_shortened(groups), rest),
        ),
{
    let body = groups_bits(baseline, groups) + rest;
    assert(message_list_bits(baseline, groups) + rest =~= list_header_bits(groups.len() as u16)
        + body);
    lemma_list_header_round_trip(groups.len() as u16, body);
    lemma_groups_round_trip(baseline, groups, rest);
}

/// The ids of the messages of a group, in order.
pub open spec fn ids_of(entries: Staged) -> Seq<MessageId> {
    Seq::new(entries.len(), |i: int| entries[i].0)
}

/// The tick and id of every message of some groups, in order.
pub open spec fn in_flight(groups: Seq<(Tick, Staged)>) -> Seq<(Tick, MessageId)>
    decreases groups.len(),
{
    if groups.len() == 0 {
        Seq::empty()
    } else {
        in_flight(groups.drop_last()) + Seq::new(
            groups.last().1.len(),
            |k: int| (groups.last().0, groups.last().1[k].0),
        )
    }
}

/// Messages that can be read take eight bits each at the least.
pub proof fn lemma_parse_entries_needs(bits: Seq<bool>, count: nat)
    requires
        parse_entries(bits, count) is Some,
    ensures
        8 * count <= bits.len(),
    decreases count,
{
    if count > 0 {
        match parse_message(bits.skip(8)) {
            Some((message, rest)) => {
                lemma_varint_parse_bound(bits.skip(8).skip(16), MAX_GROUPS as nat);
                lemma_parse_entries_needs(rest, (count - 1) as nat);
            },
            None => {},
        }
    }
}

} // verus!
