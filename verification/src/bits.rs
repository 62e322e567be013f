//! Bit streams: how numbers become bits, how bits are packed into bytes, and
//! the writer and reader of packets.

use vstd::arithmetic::div_mod::lemma_div_denominator;
use vstd::arithmetic::power2::{lemma2_to64, lemma_pow2_pos, lemma_pow2_unfold, pow2};
use vstd::bits::{lemma_u64_shr_is_div, lemma_u8_shr_is_div};
use vstd::prelude::*;

verus! {

/// The largest packet, in bytes.
pub const MTU_SIZE_BYTES: usize = 1200;

/// The largest packet, in bits.
pub const MTU_SIZE_BITS: usize = MTU_SIZE_BYTES * 8;

/// The `width` low binary digits of `value`, most significant first.
pub open spec fn bits_of_value(value: nat, width: nat) -> Seq<bool> {
    Seq::new(width, |i: int| (value / pow2((width - 1 - i) as nat)) % 2 == 1)
}

/// The number that a run of binary digits spells, most significant first.
pub open spec fn value_of(bits: Seq<bool>) -> nat
    decreases bits.len(),
{
    if bits.len() == 0 {
        0
    } else {
        2 * value_of(bits.drop_last()) + if bits.last() {
            1nat
        } else {
            0nat
        }
    }
}

/// The bits of a run of bytes: eight per byte, most significant first.
pub open spec fn bits_of_bytes(bytes: Seq<u8>) -> Seq<bool> {
    Seq::new(8 * bytes.len(), |i: int| (bytes[i / 8] as nat / pow2((7 - i % 8) as nat)) % 2 == 1)
}

/// A run of `count` zero bits.
pub open spec fn zero_bits(count: nat) -> Seq<bool> {
    Seq::new(count, |i: int| false)
}

/// Whether `bits` begins with `prefix`.
pub open spec fn starts_with(bits: Seq<bool>, prefix: Seq<bool>) -> bool {
    prefix.len() <= bits.len() && bits.take(prefix.len() as int) == prefix
}

/// One more digit at the end doubles the number and adds the digit.
pub proof fn lemma_bits_push(value: nat, width: nat)
    ensures
        bits_of_value(value, width + 1) == bits_of_value(value / 2, width).push(value % 2 == 1),
{
    let wide = bits_of_value(value, width + 1);
    let pushed = bits_of_value(value / 2, width).push(value % 2 == 1);
    assert(wide.len() == pushed.len());
    assert forall|i: int| 0 <= i < wide.len() implies wide[i] == pushed[i] by {
        if i < width {
            let low = pow2((width - 1 - i) as nat);
            lemma_pow2_pos((width - 1 - i) as nat);
            lemma_pow2_unfold((width - i) as nat);
            lemma_div_denominator(value as int, 2, low as int);
        } else {
            lemma2_to64();
        }
    }
    assert(wide =~= pushed);
}

/// Reading back the digits of a number that fits gives the number.
pub proof fn lemma_value_of_bits(value: nat, width: nat)
    requires
        value < pow2(width),
    ensures
        value_of(bits_of_value(value, width)) == value,
    decreases width,
{
    if width == 0 {
        lemma2_to64();
    } else {
        let shorter = (width - 1) as nat;
        lemma_bits_push(value, shorter);
        lemma_pow2_unfold(width);
        lemma_value_of_bits(value / 2, shorter);
        assert(bits_of_value(value / 2, shorter).push(value % 2 == 1).drop_last()
            =~= bits_of_value(value / 2, shorter));
    }
}

/// Digits spell a number under two to their count, and that number's digits
/// are the same digits again.
pub proof fn lemma_bits_of_value_of(bits: Seq<bool>)
    ensures
        value_of(bits) < pow2(bits.len()),
        bits_of_value(value_of(bits), bits.len()) == bits,
    decreases bits.len(),
{
    if bits.len() == 0 {
        lemma2_to64();
        assert(bits_of_value(0, 0) =~= bits);
    } else {
        let front = bits.drop_last();
        lemma_bits_of_value_of(front);
        lemma_pow2_unfold(bits.len());
        lemma_bits_push(value_of(bits), front.len());
        assert(front.push(bits.last()) =~= bits);
    }
}

/// Two numbers that fit and have the same digits are the same number.
pub proof fn lemma_bits_of_value_injective(a: nat, b: nat, width: nat)
    requires
        a < pow2(width),
        b < pow2(width),
        bits_of_value(a, width) == bits_of_value(b, width),
    ensures
        a == b,
{
    lemma_value_of_bits(a, width);
    lemma_value_of_bits(b, width);
}

/// The bits of a run of bytes are those of its first bytes, then those of
/// its last byte.
pub proof fn lemma_bits_of_bytes_push(bytes: Seq<u8>, byte: u8)
    ensures
        bits_of_bytes(bytes.push(byte)) == bits_of_bytes(bytes) + bits_of_value(byte as nat, 8),
{
    assert(bits_of_bytes(bytes.push(byte)) =~= bits_of_bytes(bytes) + bits_of_value(
        byte as nat,
        8,
    ));
}

/// A read ran past the end of the packet, or met bits that spell no value.
#[derive(Clone, Copy, Debug, PartialEq, Eq)]
pub struct SerdeErr;

/// A packet under construction: a run of bits that never grows past
/// `MTU_SIZE_BITS`, part of which may be set aside for what must still fit.
pub struct BitWriter {
    bytes: Vec<u8>,
    scratch: u8,
    scratch_bits: u8,
    reserved: usize,
}

impl View for BitWriter {
    type V = Seq<bool>;

    closed spec fn view(&self) -> Seq<bool> {
        bits_of_bytes(self.bytes@) + bits_of_value(self.scratch as nat, self.scratch_bits as nat)
    }
}

impl BitWriter {
    /// How many bits are set aside.
    pub closed spec fn reserved(&self) -> nat {
        self.reserved as nat
    }

    /// The bits that do not yet fill a byte are held as a number of that
    /// many digits.
    pub closed spec fn packed(&self) -> bool {
        &&& self.scratch_bits < 8
        &&& self.scratch < pow2(self.scratch_bits as nat)
    }

    /// The written and the reserved bits together fit in a packet.
    pub open spec fn wf(&self) -> bool {
        &&& self.packed()
        &&& self@.len() + self.reserved() <= MTU_SIZE_BITS
    }

    /// How many more bits may be written.
    pub open spec fn room(&self) -> int {
        MTU_SIZE_BITS - self@.len() - self.reserved()
    }

    /// A packet under construction never exceeds the largest packet.
    pub proof fn lemma_fits_packet(&self)
        requires
            self.wf(),
        ensures
            self@.len() <= MTU_SIZE_BITS,
            self@.len() + padding(self@.len()) <= MTU_SIZE_BITS,
    {
    }

    /// An empty packet.
    pub fn new() -> (r: BitWriter)
        ensures
            r.wf(),
            r@ == Seq::<bool>::empty(),
            r.reserved() == 0,
    {
        let r = BitWriter { bytes: Vec::new(), scratch: 0, scratch_bits: 0, reserved: 0 };
        proof {
            lemma2_to64();
            assert(r@ =~= Seq::<bool>::empty());
        }
        r
    }

    /// How many bits have been written.
    pub fn bit_count(&self) -> (r: usize)
        requires
            self.wf(),
        ensures
            r == self@.len(),
    {
        self.bytes.len() * 8 + self.scratch_bits as usize
    }

    /// How many more bits may be written.
    pub fn bits_free(&self) -> (r: usize)
        requires
            self.wf(),
        ensures
            r == self.room(),
    {
        MTU_SIZE_BITS - self.bit_count() - self.reserved
    }

    /// Sets `count` more bits aside.
    pub fn reserve_bits(&mut self, count: usize)
        requires
            old(self).wf(),
            count <= old(self).room(),
        ensures
            final(self).wf(),
            final(self)@ == old(self)@,
            final(self).reserved() == old(self).reserved() + count,
    {
        self.reserved = self.reserved + count;
    }

    /// Gives `count` reserved bits back for writing.
    pub fn release_bits(&mut self, count: usize)
        requires
            old(self).wf(),
            count <= old(self).reserved(),
        ensures
            final(self).wf(),
            final(self)@ == old(self)@,
            final(self).reserved() == old(self).reserved() - count,
    {
        self.reserved = self.reserved - count;
    }

    // Appends one bit, reserved room or not.
    fn push_bit(&mut self, bit: bool)
        requires
            old(self).packed(),
            old(self)@.len() < MTU_SIZE_BITS,
        ensures
            final(self).packed(),
            final(self)@ == old(self)@.push(bit),
            final(self).reserved() == old(self).reserved(),
            final(self).scratch_bits == (old(self).scratch_bits + 1) % 8,
    {
        let ghost before = self@;
        proof {
            let digit = if bit { 1nat } else { 0nat };
            lemma_bits_push(2 * self.scratch as nat + digit, self.scratch_bits as nat);
            lemma_pow2_unfold((self.scratch_bits + 1) as nat);
            lemma2_to64();
        }
        let digit: u8 = if bit { 1 } else { 0 };
        self.scratch = self.scratch * 2 + digit;
        self.scratch_bits = self.scratch_bits + 1;
        assert(bits_of_value(self.scratch as nat, self.scratch_bits as nat) == bits_of_value(
            old(self).scratch as nat,
            old(self).scratch_bits as nat,
        ).push(bit));
        if self.scratch_bits == 8 {
            proof {
                lemma_bits_of_bytes_push(self.bytes@, self.scratch);
            }
            self.bytes.push(self.scratch);
            self.scratch = 0;
            self.scratch_bits = 0;
        }
        assert(self@ =~= before.push(bit));
    }

    /// Appends one bit.
    pub fn write_bit(&mut self, bit: bool)
        requires
            old(self).wf(),
            old(self).room() >= 1,
        ensures
            final(self).wf(),
            final(self)@ == old(self)@.push(bit),
            final(self).reserved() == old(self).reserved(),
    {
        self.push_bit(bit);
    }

    /// Appends the `width` low digits of `value`, most significant first.
    pub fn write_bits(&mut self, value: u64, width: u8)
        requires
            old(self).wf(),
            width <= 64,
            old(self).room() >= width,
        ensures
            final(self).wf(),
            final(self)@ == old(self)@ + bits_of_value(value as nat, width as nat),
            final(self).reserved() == old(self).reserved(),
    {
        let ghost before = self@;
        let ghost digits = bits_of_value(value as nat, width as nat);
        let mut i: u8 = 0;
        assert(before + digits.take(0) =~= before);
        while i < width
            invariant
                i <= width <= 64,
                self.wf(),
                self.reserved() == old(self).reserved(),
                before.len() + width + self.reserved() <= MTU_SIZE_BITS,
                digits == bits_of_value(value as nat, width as nat),
                self@ == before + digits.take(i as int),
            decreases width - i,
        {
            let shift: u64 = (width - 1 - i) as u64;
            proof {
                lemma_u64_shr_is_div(value, shift);
            }
            let bit = (value >> shift) % 2 == 1;
            assert(bit == digits[i as int]);
            self.push_bit(bit);
            i += 1;
            assert(digits.take(i as int) =~= digits.take(i - 1).push(bit));
            assert(self@ =~= before + digits.take(i as int));
        }
        assert(digits.take(width as int) =~= digits);
    }

    /// Ends the packet: fills the last byte up with zero bits and hands the
    /// bytes out with their count. The writer is empty afterwards.
    pub fn flush(&mut self) -> (r: (usize, Vec<u8>))
        requires
            old(self).wf(),
        ensures
            final(self).wf(),
            final(self)@ == Seq::<bool>::empty(),
            final(self).reserved() == 0,
            r.0 == r.1@.len(),
            r.0 <= MTU_SIZE_BYTES,
            bits_of_bytes(r.1@) == old(self)@ + zero_bits(padding(old(self)@.len())),
    {
        let ghost before = self@;
        let ghost mut added: nat = 0;
        assert(before + zero_bits(0) =~= before);
        while self.scratch_bits != 0
            invariant
                self.packed(),
                self@.len() <= MTU_SIZE_BITS,
                self@ == before + zero_bits(added),
                self.scratch_bits != 0 ==> self.scratch_bits == before.len() % 8 + added,
                self.scratch_bits == 0 ==> added == padding(before.len()),
                added < 8,
                added == 0 || before.len() % 8 != 0,
            decreases (8 - self.scratch_bits) % 8,
        {
            self.push_bit(false);
            proof {
                added = added + 1;
                assert(self@ =~= before + zero_bits(added));
            }
        }
        let mut bytes: Vec<u8> = Vec::new();
        std::mem::swap(&mut bytes, &mut self.bytes);
        self.reserved = 0;
        proof {
            lemma2_to64();
            assert(self@ =~= Seq::<bool>::empty());
            assert(bits_of_bytes(bytes@) =~= before + zero_bits(added));
        }
        (bytes.len(), bytes)
    }
}

/// How many zero bits fill a run of `count` bits up to whole bytes.
pub open spec fn padding(count: nat) -> nat {
    ((8 - count % 8) % 8) as nat
}

/// A received packet that is read bit by bit from the front.
pub struct BitReader {
    bytes: Vec<u8>,
    length: usize,
    byte_index: usize,
    bit_index: u8,
}

impl View for BitReader {
    type V = Seq<bool>;

    /// The bits that are still to be read.
    closed spec fn view(&self) -> Seq<bool> {
        bits_of_bytes(self.bytes@.take(self.length as int)).skip(
            8 * self.byte_index + self.bit_index,
        )
    }
}

impl BitReader {
    /// The position lies within the packet.
    pub closed spec fn wf(&self) -> bool {
        &&& self.length <= self.bytes@.len()
        &&& self.byte_index <= self.length
        &&& self.bit_index < 8
        &&& self.byte_index == self.length ==> self.bit_index == 0
    }

    /// A reader of the first `buffer_length` bytes of `buffer`, or of all of
    /// it where it is shorter.
    pub fn new(buffer_length: usize, buffer: Vec<u8>) -> (r: BitReader)
        ensures
            r.wf(),
            r@ == bits_of_bytes(
                buffer@.take(
                    if buffer_length <= buffer@.len() {
                        buffer_length as int
                    } else {
                        buffer@.len() as int
                    },
                ),
            ),
    {
        let length = if buffer_length <= buffer.len() {
            buffer_length
        } else {
            buffer.len()
        };
        let r = BitReader { bytes: buffer, length, byte_index: 0, bit_index: 0 };
        assert(r@ =~= bits_of_bytes(buffer@.take(length as int)));
        r
    }

    /// Whether at least `count` bits are left.
    pub fn has_bits(&self, count: usize) -> (r: bool)
        requires
            self.wf(),
        ensures
            r == (count <= self@.len()),
    {
        let whole: usize = self.length - self.byte_index;
        if self.bit_index == 0 {
            count / 8 < whole || (count / 8 == whole && count % 8 == 0)
        } else {
            let in_byte: usize = (8 - self.bit_index) as usize;
            if count <= in_byte {
                true
            } else {
                let beyond: usize = count - in_byte;
                beyond / 8 < whole - 1 || (beyond / 8 == whole - 1 && beyond % 8 == 0)
            }
        }
    }

    /// No reader holds more bits than eight for each byte that memory can
    /// hold.
    pub proof fn lemma_len_bound(&self)
        requires
            self.wf(),
        ensures
            self@.len() <= 8 * usize::MAX,
    {
    }

    /// Whether at least `count` whole bytes are left.
    pub fn has_bytes(&self, count: usize) -> (r: bool)
        requires
            self.wf(),
        ensures
            r == (8 * count <= self@.len()),
            self@.len() <= 8 * usize::MAX,
    {
        let whole: usize = self.length - self.byte_index;
        if self.bit_index == 0 {
            count <= whole
        } else {
            count < whole
        }
    }

    /// Reads one bit.
    pub fn read_bit(&mut self) -> (r: Result<bool, SerdeErr>)
        requires
            old(self).wf(),
        ensures
            final(self).wf(),
            match r {
                Ok(bit) => old(self)@.len() > 0 && bit == old(self)@[0] && final(self)@ == old(
                    self,
                )@.skip(1),
                Err(_) => old(self)@.len() == 0 && final(self)@ == old(self)@,
            },
    {
        if self.byte_index >= self.length {
            return Err(SerdeErr);
        }
        let byte: u8 = self.bytes[self.byte_index];
        let shift: u8 = 7 - self.bit_index;
        proof {
            lemma_u8_shr_is_div(byte, shift);
        }
        let bit = (byte >> shift) % 2 == 1;
        let ghost before = self@;
        let ghost at = 8 * self.byte_index + self.bit_index;
        assert(before[0] == bits_of_bytes(self.bytes@.take(self.length as int))[at]);
        assert(at / 8 == self.byte_index && at % 8 == self.bit_index);
        if self.bit_index == 7 {
            self.byte_index = self.byte_index + 1;
            self.bit_index = 0;
        } else {
            self.bit_index = self.bit_index + 1;
        }
        assert(self@ =~= before.skip(1));
        Ok(bit)
    }

    /// Reads a number of `width` digits, most significant first. Where
    /// fewer bits are left, nothing is read.
    pub fn read_bits(&mut self, width: u8) -> (r: Result<u64, SerdeErr>)
        requires
            old(self).wf(),
            width <= 64,
        ensures
            final(self).wf(),
            match r {
                Ok(value) => {
                    &&& width <= old(self)@.len()
                    &&& value == value_of(old(self)@.take(width as int))
                    &&& final(self)@ == old(self)@.skip(width as int)
                },
                Err(_) => old(self)@.len() < width && final(self)@ == old(self)@,
            },
    {
        if !self.has_bits(width as usize) {
            return Err(SerdeErr);
        }
        let ghost before = self@;
        let mut value: u64 = 0;
        let mut i: u8 = 0;
        assert(before.skip(0) =~= before);
        proof {
            lemma2_to64();
        }
        while i < width
            invariant
                i <= width <= 64,
                width <= before.len(),
                self.wf(),
                self@ == before.skip(i as int),
                value == value_of(before.take(i as int)),
                value < pow2(i as nat),
            decreases width - i,
        {
            let read = self.read_bit();
            let bit = match read {
                Ok(bit) => bit,
                Err(_) => false,
            };
            assert(bit == before[i as int]);
            proof {
                lemma_pow2_unfold((i + 1) as nat);
                lemma2_to64();
                lemma_pow2_pos(i as nat);
                assert(before.take(i + 1).drop_last() =~= before.take(i as int));
                assert(pow2(64) == 0x1_0000_0000_0000_0000);
                if i + 1 < 64 {
                    vstd::arithmetic::power2::lemma_pow2_strictly_increases((i + 1) as nat, 64);
                }
            }
            let digit: u64 = if bit { 1 } else { 0 };
            value = value * 2 + digit;
            i += 1;
            assert(self@ =~= before.skip(i as int));
        }
        Ok(value)
    }
}

} // verus!
