//! Unsigned integers of variable length: groups of three digits, least
//! significant group first, each behind a bit that says whether more follow.

use crate::bits::{
    BitReader, BitWriter, SerdeErr, bits_of_value, lemma_bits_of_value_of, lemma_value_of_bits,
    value_of,
};
use vstd::arithmetic::power2::{lemma2_to64, lemma2_to64_rest, lemma_pow2_unfold, pow2};
use vstd::prelude::*;

verus! {

/// The most groups that a number may take: enough for 64 digits.
pub const MAX_GROUPS: u8 = 22;

/// The bits that stand for `value`.
pub open spec fn varint_bits(value: nat) -> Seq<bool>
    decreases value,
{
    if value < 8 {
        seq![false] + bits_of_value(value, 3)
    } else {
        seq![true] + bits_of_value(value % 8, 3) + varint_bits(value / 8)
    }
}

/// How many groups `value` takes.
pub open spec fn varint_groups(value: nat) -> nat
    decreases value,
{
    if value < 8 {
        1
    } else {
        1 + varint_groups(value / 8)
    }
}

/// The number that the coming bits stand for, and the bits behind it; none
/// where the bits end too early or run to more than `groups` groups.
pub open spec fn varint_parse(bits: Seq<bool>, groups: nat) -> Option<(nat, Seq<bool>)>
    decreases groups,
{
    if groups == 0 || bits.len() < 4 {
        None
    } else {
        let digits = value_of(bits.subrange(1, 4));
        if !bits[0] {
            Some((digits, bits.skip(4)))
        } else {
            match varint_parse(bits.skip(4), (groups - 1) as nat) {
                Some((higher, rest)) => Some((digits + 8 * higher, rest)),
                None => None,
            }
        }
    }
}

/// A greater number takes no fewer groups.
pub proof fn lemma_varint_groups_grow(smaller: nat, greater: nat)
    requires
        smaller <= greater,
    ensures
        varint_groups(smaller) <= varint_groups(greater),
        varint_bits(smaller).len() <= varint_bits(greater).len(),
    decreases greater,
{
    lemma_varint_length(smaller);
    lemma_varint_length(greater);
    if smaller >= 8 {
        lemma_varint_groups_grow(smaller / 8, greater / 8);
    }
}

/// A number takes four bits for each of its groups.
pub proof fn lemma_varint_length(value: nat)
    ensures
        varint_bits(value).len() == 4 * varint_groups(value),
    decreases value,
{
    if value >= 8 {
        lemma_varint_length(value / 8);
    }
}

/// A number under two to the `3 * groups` takes `groups` groups at most.
pub proof fn lemma_varint_groups(value: nat, groups: nat)
    requires
        groups >= 1,
        value < pow2(3 * groups),
    ensures
        varint_groups(value) <= groups,
    decreases groups,
{
    if value >= 8 {
        lemma2_to64();
        if groups == 1 {
            assert(false);
        } else {
            lemma_pow2_unfold(3 * groups);
            lemma_pow2_unfold((3 * groups - 1) as nat);
            lemma_pow2_unfold((3 * groups - 2) as nat);
            lemma_varint_groups(value / 8, (groups - 1) as nat);
        }
    }
}

/// Every 64-bit number takes `MAX_GROUPS` groups at most.
pub proof fn lemma_varint_groups_u64(value: u64)
    ensures
        varint_groups(value as nat) <= MAX_GROUPS,
        varint_bits(value as nat).len() <= 4 * MAX_GROUPS,
{
    lemma2_to64_rest();
    lemma_pow2_unfold(66);
    lemma_pow2_unfold(65);
    lemma_varint_groups(value as nat, 22);
    lemma_varint_length(value as nat);
}

/// Writing a number and reading it back gives the number, and what stood
/// behind it is what is left.
pub proof fn lemma_varint_round_trip(value: nat, rest: Seq<bool>, groups: nat)
    requires
        varint_groups(value) <= groups,
    ensures
        varint_parse(varint_bits(value) + rest, groups) == Some((value, rest)),
    decreases value,
{
    let stream = varint_bits(value) + rest;
    lemma2_to64();
    if value < 8 {
        assert(stream.subrange(1, 4) =~= bits_of_value(value, 3));
        lemma_value_of_bits(value, 3);
        assert(stream.skip(4) =~= rest);
    } else {
        assert(stream.subrange(1, 4) =~= bits_of_value(value % 8, 3));
        lemma_value_of_bits(value % 8, 3);
        assert(stream.skip(4) =~= varint_bits(value / 8) + rest);
        lemma_varint_round_trip(value / 8, rest, (groups - 1) as nat);
    }
}

/// A number that was read is under two to the `3 * groups`, and at least
/// one group and at most `groups` groups were read off for it.
pub proof fn lemma_varint_parse_bound(bits: Seq<bool>, groups: nat)
    ensures
        match varint_parse(bits, groups) {
            Some((value, rest)) => {
                &&& value < pow2(3 * groups)
                &&& exists|used: int|
                    4 <= used <= bits.len() && used <= 4 * groups && #[trigger] bits.skip(used)
                        == rest
            },
            None => true,
        },
    decreases groups,
{
    if let Some((value, rest)) = varint_parse(bits, groups) {
        lemma2_to64();
        lemma_bits_of_value_of(bits.subrange(1, 4));
        lemma_pow2_unfold(3 * groups);
        lemma_pow2_unfold((3 * groups - 1) as nat);
        lemma_pow2_unfold((3 * groups - 2) as nat);
        if !bits[0] {
            if groups > 1 {
                vstd::arithmetic::power2::lemma_pow2_strictly_increases(3, 3 * groups);
            }
            assert(bits.skip(4) == rest);
        } else {
            let shorter = (groups - 1) as nat;
            lemma_varint_parse_bound(bits.skip(4), shorter);
            let inner = choose|used: int|
                4 <= used <= bits.skip(4).len() && used <= 4 * shorter && #[trigger] bits.skip(
                    4,
                ).skip(used) == rest;
            assert(bits.skip(4).skip(inner) =~= bits.skip(inner + 4));
        }
    }
}

/// How many bits `value` takes.
pub fn varint_len(value: u64) -> (r: usize)
    ensures
        r == varint_bits(value as nat).len(),
        r <= 4 * MAX_GROUPS,
{
    proof {
        lemma_varint_groups_u64(value);
    }
    let mut count: usize = 4;
    let mut left: u64 = value;
    while left >= 8
        invariant
            count + varint_bits(left as nat).len() == 4 + varint_bits(value as nat).len(),
            varint_bits(value as nat).len() <= 4 * MAX_GROUPS,
        decreases left,
    {
        proof {
            lemma_varint_length(left as nat);
            lemma_varint_length(left as nat / 8);
        }
        left = left / 8;
        count = count + 4;
    }
    count
}

/// Appends `value`.
pub fn write_varint(writer: &mut BitWriter, value: u64)
    requires
        old(writer).wf(),
        varint_bits(value as nat).len() <= old(writer).room(),
    ensures
        final(writer).wf(),
        final(writer)@ == old(writer)@ + varint_bits(value as nat),
        final(writer).reserved() == old(writer).reserved(),
{
    let ghost before = writer@;
    let ghost whole = varint_bits(value as nat);
    let mut left: u64 = value;
    proof {
        lemma2_to64();
    }
    while left >= 8
        invariant
            writer.wf(),
            writer.reserved() == old(writer).reserved(),
            before.len() + whole.len() + writer.reserved() <= crate::bits::MTU_SIZE_BITS,
            writer@ + varint_bits(left as nat) == before + whole,
            pow2(3) == 8,
        decreases left,
    {
        let ghost prior = writer@;
        assert((prior + varint_bits(left as nat)).len() == (before + whole).len());
        writer.write_bit(true);
        writer.write_bits(left % 8, 3);
        assert(writer@ + varint_bits(left as nat / 8) =~= prior + varint_bits(left as nat));
        left = left / 8;
    }
    let ghost prior = writer@;
    assert((prior + varint_bits(left as nat)).len() == (before + whole).len());
    writer.write_bit(false);
    writer.write_bits(left, 3);
    assert(writer@ =~= prior + varint_bits(left as nat));
}

/// Reads a number of `groups` groups at most.
fn read_groups(reader: &mut BitReader, groups: u8) -> (r: Result<u128, SerdeErr>)
    requires
        old(reader).wf(),
        groups <= MAX_GROUPS,
    ensures
        final(reader).wf(),
        match r {
            Ok(value) => varint_parse(old(reader)@, groups as nat) == Some(
                (value as nat, final(reader)@),
            ),
            Err(_) => varint_parse(old(reader)@, groups as nat) is None,
        },
    decreases groups,
{
    let ghost before = reader@;
    if groups == 0 || !reader.has_bits(4) {
        return Err(SerdeErr);
    }
    let more = reader.read_bit()?;
    let digits = reader.read_bits(3)?;
    proof {
        lemma2_to64();
        assert(before.skip(1).take(3) =~= before.subrange(1, 4));
        assert(before.skip(1).skip(3) =~= before.skip(4));
        lemma_bits_of_value_of(before.subrange(1, 4));
    }
    if !more {
        return Ok(digits as u128);
    }
    match read_groups(reader, groups - 1) {
        Ok(higher) => {
            proof {
                lemma_varint_parse_bound(before.skip(4), (groups - 1) as nat);
                lemma2_to64_rest();
                lemma_pow2_unfold(66);
                lemma_pow2_unfold(65);
                if groups - 1 < 22 {
                    vstd::arithmetic::power2::lemma_pow2_strictly_increases(
                        (3 * (groups - 1)) as nat,
                        66,
                    );
                }
            }
            Ok(digits as u128 + 8 * higher)
        },
        Err(e) => Err(e),
    }
}

/// Reads a number that fits in 64 bits.
pub fn read_varint(reader: &mut BitReader) -> (r: Result<u64, SerdeErr>)
    requires
        old(reader).wf(),
    ensures
        final(reader).wf(),
        match r {
            Ok(value) => varint_parse(old(reader)@, MAX_GROUPS as nat) == Some(
                (value as nat, final(reader)@),
            ),
            Err(_) => match varint_parse(old(reader)@, MAX_GROUPS as nat) {
                Some((value, _)) => value > u64::MAX,
                None => true,
            },
        },
{
    match read_groups(reader, MAX_GROUPS) {
        Ok(value) => {
            if value <= u64::MAX as u128 {
                Ok(value as u64)
            } else {
                Err(SerdeErr)
            }
        },
        Err(e) => Err(e),
    }
}

} // verus!
