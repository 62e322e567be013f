//! The count in front of a list of message groups: one zero bit for an
//! empty list, else a one bit and the count as a variable-length integer.

use crate::bits::{BitReader, BitWriter, SerdeErr};
use crate::varint::{
    MAX_GROUPS, lemma_varint_groups_grow, lemma_varint_groups_u64, lemma_varint_round_trip,
    read_varint, varint_bits, varint_parse, write_varint,
};
use vstd::prelude::*;

verus! {

/// The bits that stand for `count`.
pub open spec fn list_header_bits(count: u16) -> Seq<bool> {
    if count == 0 {
        seq![false]
    } else {
        seq![true] + varint_bits(count as nat)
    }
}

/// The count that the coming bits stand for, and the bits behind it.
pub open spec fn list_header_parse(bits: Seq<bool>) -> Option<(u16, Seq<bool>)> {
    if bits.len() == 0 {
        None
    } else if !bits[0] {
        Some((0u16, bits.skip(1)))
    } else {
        match varint_parse(bits.skip(1), MAX_GROUPS as nat) {
            Some((count, rest)) => if count <= u16::MAX {
                Some((count as u16, rest))
            } else {
                None
            },
            None => None,
        }
    }
}

/// A count that was written is the count that is read, and what stood
/// behind it is what is left.
pub proof fn lemma_list_header_round_trip(count: u16, rest: Seq<bool>)
    ensures
        list_header_parse(list_header_bits(count) + rest) == Some((count, rest)),
{
    let stream = list_header_bits(count) + rest;
    if count == 0 {
        assert(stream.skip(1) =~= rest);
    } else {
        assert(stream.skip(1) =~= varint_bits(count as nat) + rest);
        lemma_varint_groups_u64(count as u64);
        lemma_varint_round_trip(count as nat, rest, MAX_GROUPS as nat);
    }
}

/// A greater count takes no fewer bits.
pub proof fn lemma_list_header_grows(smaller: u16, greater: u16)
    requires
        smaller <= greater,
    ensures
        list_header_bits(smaller).len() <= list_header_bits(greater).len(),
{
    lemma_varint_groups_grow(smaller as nat, greater as nat);
}

/// How many bits the count takes.
pub fn bit_len(message_count: u16) -> (r: usize)
    ensures
        r == list_header_bits(message_count).len(),
        1 <= r <= 1 + 4 * MAX_GROUPS,
{
    if message_count == 0 {
        1
    } else {
        1 + crate::varint::varint_len(message_count as u64)
    }
}

/// Appends the count.
pub fn write(writer: &mut BitWriter, message_count: u16)
    requires
        old(writer).wf(),
        list_header_bits(message_count).len() <= old(writer).room(),
    ensures
        final(writer).wf(),
        final(writer)@ == old(writer)@ + list_header_bits(message_count),
        final(writer).reserved() == old(writer).reserved(),
{
    let ghost before = writer@;
    if message_count == 0 {
        writer.write_bit(false);
        assert(writer@ =~= before + list_header_bits(message_count));
    } else {
        writer.write_bit(true);
        write_varint(writer, message_count as u64);
        assert(writer@ =~= before + list_header_bits(message_count));
    }
}

/// Reads a count.
pub fn read(reader: &mut BitReader) -> (r: Result<u16, SerdeErr>)
    requires
        old(reader).wf(),
    ensures
        final(reader).wf(),
        match r {
            Ok(count) => list_header_parse(old(reader)@) == Some((count, final(reader)@)),
            Err(_) => list_header_parse(old(reader)@) is None,
        },
{
    let more = reader.read_bit()?;
    if !more {
        return Ok(0);
    }
    match read_varint(reader) {
        Ok(count) => {
            if count <= u16::MAX as u64 {
                Ok(count as u16)
            } else {
                Err(SerdeErr)
            }
        },
        Err(e) => Err(e),
    }
}

} // verus!
