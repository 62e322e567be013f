//! Values that can be written to and read from a bit stream.

use crate::bits::{
    BitReader, BitWriter, SerdeErr, bits_of_value, lemma_bits_of_value_injective,
    lemma_bits_of_value_of, starts_with, value_of,
};
use vstd::arithmetic::power2::{lemma2_to64, lemma2_to64_rest, pow2};
use vstd::prelude::*;

verus! {

/// A value with a bit encoding of its own.
pub trait Serde: Sized {
    /// The bits that stand for the value.
    spec fn encoding(&self) -> Seq<bool>;

    /// Appends the value's encoding.
    fn ser(&self, writer: &mut BitWriter)
        requires
            old(writer).wf(),
            self.encoding().len() <= old(writer).room(),
        ensures
            final(writer).wf(),
            final(writer)@ == old(writer)@ + self.encoding(),
            final(writer).reserved() == old(writer).reserved(),
    ;

    /// Reads the value that the coming bits encode, and fails where they
    /// encode none.
    fn de(reader: &mut BitReader) -> (r: Result<Self, SerdeErr>)
        requires
            old(reader).wf(),
        ensures
            final(reader).wf(),
            match r {
                Ok(value) => old(reader)@ == value.encoding() + final(reader)@,
                Err(_) => forall|value: Self|
                    !starts_with(old(reader)@, #[trigger] value.encoding()),
            },
    ;

    /// A bit stream begins with the encoding of one value at most.
    proof fn lemma_unambiguous(a: Self, b: Self, after_a: Seq<bool>, after_b: Seq<bool>)
        requires
            a.encoding() + after_a == b.encoding() + after_b,
        ensures
            a == b,
            after_a == after_b,
    ;
}

/// What is left of a stream behind one of two equally long beginnings.
proof fn lemma_same_length_split(
    first: Seq<bool>,
    second: Seq<bool>,
    after_first: Seq<bool>,
    after_second: Seq<bool>,
)
    requires
        first.len() == second.len(),
        first + after_first == second + after_second,
    ensures
        first == second,
        after_first == after_second,
{
    let whole = first + after_first;
    assert(whole.take(first.len() as int) =~= first);
    assert(whole.take(first.len() as int) =~= second);
    assert(whole.skip(first.len() as int) =~= after_first);
    assert(whole.skip(first.len() as int) =~= after_second);
}

/// A stream is its first bits followed by the rest, and those first bits
/// spell a number whose digits they are.
proof fn lemma_read_back(stream: Seq<bool>, width: nat)
    requires
        width <= stream.len(),
    ensures
        value_of(stream.take(width as int)) < pow2(width),
        stream == bits_of_value(value_of(stream.take(width as int)), width) + stream.skip(
            width as int,
        ),
{
    lemma_bits_of_value_of(stream.take(width as int));
    assert(stream =~= stream.take(width as int) + stream.skip(width as int));
}

/// A stream that begins with an encoding holds at least its bits.
proof fn lemma_too_short(stream: Seq<bool>, width: nat)
    requires
        stream.len() < width,
    ensures
        forall|value: nat| !starts_with(stream, #[trigger] bits_of_value(value, width)),
{
}

impl Serde for bool {
    open spec fn encoding(&self) -> Seq<bool> {
        seq![*self]
    }

    fn ser(&self, writer: &mut BitWriter) {
        let ghost before = writer@;
        writer.write_bit(*self);
        assert(writer@ =~= before + seq![*self]);
    }

    fn de(reader: &mut BitReader) -> (r: Result<bool, SerdeErr>) {
        let ghost before = reader@;
        match reader.read_bit() {
            Ok(bit) => {
                assert(before =~= seq![bit] + reader@);
                Ok(bit)
            },
            Err(e) => Err(e),
        }
    }

    proof fn lemma_unambiguous(a: bool, b: bool, after_a: Seq<bool>, after_b: Seq<bool>) {
        lemma_same_length_split(a.encoding(), b.encoding(), after_a, after_b);
        assert(a.encoding()[0] == b.encoding()[0]);
    }
}

impl Serde for u8 {
    open spec fn encoding(&self) -> Seq<bool> {
        bits_of_value(*self as nat, 8)
    }

    fn ser(&self, writer: &mut BitWriter) {
        writer.write_bits(*self as u64, 8);
    }

    fn de(reader: &mut BitReader) -> (r: Result<u8, SerdeErr>) {
        let ghost before = reader@;
        match reader.read_bits(8) {
            Ok(value) => {
                proof {
                    lemma2_to64();
                    lemma_read_back(before, 8);
                }
                Ok(value as u8)
            },
            Err(e) => {
                proof {
                    lemma_too_short(before, 8);
                }
                Err(e)
            },
        }
    }

    proof fn lemma_unambiguous(a: u8, b: u8, after_a: Seq<bool>, after_b: Seq<bool>) {
        lemma2_to64();
        lemma_same_length_split(a.encoding(), b.encoding(), after_a, after_b);
        lemma_bits_of_value_injective(a as nat, b as nat, 8);
    }
}

impl Serde for u16 {
    open spec fn encoding(&self) -> Seq<bool> {
        bits_of_value(*self as nat, 16)
    }

    fn ser(&self, writer: &mut BitWriter) {
        writer.write_bits(*self as u64, 16);
    }

    fn de(reader: &mut BitReader) -> (r: Result<u16, SerdeErr>) {
        let ghost before = reader@;
        match reader.read_bits(16) {
            Ok(value) => {
                proof {
                    lemma2_to64();
                    lemma_read_back(before, 16);
                }
                Ok(value as u16)
            },
            Err(e) => {
                proof {
                    lemma_too_short(before, 16);
                }
                Err(e)
            },
        }
    }

    proof fn lemma_unambiguous(a: u16, b: u16, after_a: Seq<bool>, after_b: Seq<bool>) {
        lemma2_to64();
        lemma_same_length_split(a.encoding(), b.encoding(), after_a, after_b);
        lemma_bits_of_value_injective(a as nat, b as nat, 16);
    }
}

impl Serde for u32 {
    open spec fn encoding(&self) -> Seq<bool> {
        bits_of_value(*self as nat, 32)
    }

    fn ser(&self, writer: &mut BitWriter) {
        writer.write_bits(*self as u64, 32);
    }

    fn de(reader: &mut BitReader) -> (r: Result<u32, SerdeErr>) {
        let ghost before = reader@;
        match reader.read_bits(32) {
            Ok(value) => {
                proof {
                    lemma2_to64();
                    lemma_read_back(before, 32);
                }
                Ok(value as u32)
            },
            Err(e) => {
                proof {
                    lemma_too_short(before, 32);
                }
                Err(e)
            },
        }
    }

    proof fn lemma_unambiguous(a: u32, b: u32, after_a: Seq<bool>, after_b: Seq<bool>) {
        lemma2_to64();
        lemma_same_length_split(a.encoding(), b.encoding(), after_a, after_b);
        lemma_bits_of_value_injective(a as nat, b as nat, 32);
    }
}

impl Serde for u64 {
    open spec fn encoding(&self) -> Seq<bool> {
        bits_of_value(*self as nat, 64)
    }

    fn ser(&self, writer: &mut BitWriter) {
        writer.write_bits(*self, 64);
    }

    fn de(reader: &mut BitReader) -> (r: Result<u64, SerdeErr>) {
        let ghost before = reader@;
        match reader.read_bits(64) {
            Ok(value) => {
                proof {
                    lemma_read_back(before, 64);
                }
                Ok(value)
            },
            Err(e) => {
                proof {
                    lemma_too_short(before, 64);
                }
                Err(e)
            },
        }
    }

    proof fn lemma_unambiguous(a: u64, b: u64, after_a: Seq<bool>, after_b: Seq<bool>) {
        lemma2_to64_rest();
        lemma_same_length_split(a.encoding(), b.encoding(), after_a, after_b);
        lemma_bits_of_value_injective(a as nat, b as nat, 64);
    }
}

/// The unsigned number that stands for a signed one: itself where it is not
/// negative, else two to the thirty-second more.
pub open spec fn twos_complement(value: i32) -> nat {
    if value >= 0 {
        value as nat
    } else {
        (value + 0x1_0000_0000) as nat
    }
}

impl Serde for i32 {
    open spec fn encoding(&self) -> Seq<bool> {
        bits_of_value(twos_complement(*self), 32)
    }

    fn ser(&self, writer: &mut BitWriter) {
        let unsigned: u64 = if *self >= 0 {
            *self as u64
        } else {
            (*self as i64 + 0x1_0000_0000) as u64
        };
        writer.write_bits(unsigned, 32);
    }

    fn de(reader: &mut BitReader) -> (r: Result<i32, SerdeErr>) {
        let ghost before = reader@;
        match reader.read_bits(32) {
            Ok(value) => {
                proof {
                    lemma2_to64();
                    lemma_read_back(before, 32);
                }
                if value < 0x8000_0000 {
                    Ok(value as i32)
                } else {
                    Ok((value as i64 - 0x1_0000_0000) as i32)
                }
            },
            Err(e) => {
                proof {
                    lemma_too_short(before, 32);
                }
                Err(e)
            },
        }
    }

    proof fn lemma_unambiguous(a: i32, b: i32, after_a: Seq<bool>, after_b: Seq<bool>) {
        lemma2_to64();
        lemma_same_length_split(a.encoding(), b.encoding(), after_a, after_b);
        lemma_bits_of_value_injective(twos_complement(a), twos_complement(b), 32);
    }
}

impl<T: Serde> Serde for Box<T> {
    open spec fn encoding(&self) -> Seq<bool> {
        (**self).encoding()
    }

    fn ser(&self, writer: &mut BitWriter) {
        (**self).ser(writer)
    }

    fn de(reader: &mut BitReader) -> (r: Result<Box<T>, SerdeErr>) {
        let ghost before = reader@;
        match T::de(reader) {
            Ok(value) => Ok(Box::new(value)),
            Err(e) => {
                assert forall|boxed: Box<T>| !starts_with(before, #[trigger] boxed.encoding()) by {
                    assert(!starts_with(before, (*boxed).encoding()));
                }
                Err(e)
            },
        }
    }

    proof fn lemma_unambiguous(a: Box<T>, b: Box<T>, after_a: Seq<bool>, after_b: Seq<bool>) {
        T::lemma_unambiguous(*a, *b, after_a, after_b);
    }
}

impl BitReader {
    /// Reads a value of the type that the caller names.
    pub fn read<T: Serde>(&mut self) -> (r: Result<T, SerdeErr>)
        requires
            old(self).wf(),
        ensures
            final(self).wf(),
            match r {
                Ok(value) => old(self)@ == value.encoding() + final(self)@,
                Err(_) => forall|value: T| !starts_with(old(self)@, #[trigger] value.encoding()),
            },
    {
        T::de(self)
    }
}

} // verus!
