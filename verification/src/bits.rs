//! The bit buffer that holds a packed set, and a cursor for reading it.
//!
//! The buffer is `bitvec`'s `BitVec`, most significant bit first over bytes.
//! Verus does not look inside it: `bits_of` names the bits it holds, and the
//! private functions below state what each `BitVec` method does to them.

use bitvec::indices::BitIdx;
use bitvec::order::Lsb0;
use bitvec::order::Msb0;
use bitvec::store::BitStore;
use bitvec::vec::BitVec;
use vstd::arithmetic::power2::lemma2_to64;
use vstd::arithmetic::power2::pow2;
use vstd::prelude::*;

verus! {

/// A growable sequence of bits, stored eight to a byte.
#[verifier::external_body]
#[derive(Debug, PartialEq)]
pub struct BitBuffer {
    inner: BitVec<Msb0, u8>,
}

/// The bits that a buffer holds, first to last.
pub uninterp spec fn bits_of(buffer: BitBuffer) -> Seq<bool>;

impl View for BitBuffer {
    type V = Seq<bool>;

    open spec fn view(&self) -> Seq<bool> {
        bits_of(*self)
    }
}

/// The largest number of bits that a buffer can address.
pub open spec fn max_bits() -> nat {
    (usize::MAX / 8) as nat
}

/// Bit `i` of a number, counted from the least significant bit.
pub open spec fn bit_at(value: nat, i: nat) -> bool {
    (value / pow2(i)) % 2 == 1
}

/// The bits of a byte string, the most significant bit of each byte first.
pub open spec fn bytes_to_bits(bytes: Seq<u8>) -> Seq<bool> {
    Seq::new(8 * bytes.len(), |i: int| bit_at(bytes[i / 8] as nat, (7 - i % 8) as nat))
}

/// Bit `i` of a bit string as 0 or 1; past the end it is 0.
pub open spec fn padded_bit(bits: Seq<bool>, i: int) -> nat {
    if 0 <= i < bits.len() && bits[i] {
        1
    } else {
        0
    }
}

/// The byte made of the eight bits from `8 * j` on, the first of them the
/// most significant, with zeros where the bit string has ended.
pub open spec fn packed_byte(bits: Seq<bool>, j: int) -> nat {
    128 * padded_bit(bits, 8 * j) + 64 * padded_bit(bits, 8 * j + 1) + 32 * padded_bit(
        bits,
        8 * j + 2,
    ) + 16 * padded_bit(bits, 8 * j + 3) + 8 * padded_bit(bits, 8 * j + 4) + 4 * padded_bit(
        bits,
        8 * j + 5,
    ) + 2 * padded_bit(bits, 8 * j + 6) + padded_bit(bits, 8 * j + 7)
}

/// A bit string as bytes: eight bits to a byte, most significant first, the
/// last byte filled up with zeros.
pub open spec fn bits_to_bytes(bits: Seq<bool>) -> Seq<u8> {
    Seq::new((bits.len() + 7) / 8, |j: int| packed_byte(bits, j) as u8)
}

/// Bit `i` of a number as 0 or 1.
pub open spec fn bit_digit(value: nat, i: nat) -> nat {
    if bit_at(value, i) {
        1
    } else {
        0
    }
}

/// In a byte made of eight binary digits by their weights, the bit of each
/// weight is its digit.
proof fn lemma_byte_bits(b0: nat, b1: nat, b2: nat, b3: nat, b4: nat, b5: nat, b6: nat, b7: nat)
    requires
        b0 <= 1,
        b1 <= 1,
        b2 <= 1,
        b3 <= 1,
        b4 <= 1,
        b5 <= 1,
        b6 <= 1,
        b7 <= 1,
    ensures
        ({
            let byte = 128 * b0 + 64 * b1 + 32 * b2 + 16 * b3 + 8 * b4 + 4 * b5 + 2 * b6 + b7;
            &&& bit_digit(byte, 7) == b0
            &&& bit_digit(byte, 6) == b1
            &&& bit_digit(byte, 5) == b2
            &&& bit_digit(byte, 4) == b3
            &&& bit_digit(byte, 3) == b4
            &&& bit_digit(byte, 2) == b5
            &&& bit_digit(byte, 1) == b6
            &&& bit_digit(byte, 0) == b7
        }),
{
    lemma2_to64();
    let byte = 128 * b0 + 64 * b1 + 32 * b2 + 16 * b3 + 8 * b4 + 4 * b5 + 2 * b6 + b7;
    assert(byte / 128 == b0);
    assert(byte / 64 == 2 * b0 + b1);
    assert(byte / 32 == 4 * b0 + 2 * b1 + b2);
    assert(byte / 16 == 8 * b0 + 4 * b1 + 2 * b2 + b3);
    assert(byte / 8 == 16 * b0 + 8 * b1 + 4 * b2 + 2 * b3 + b4);
    assert(byte / 4 == 32 * b0 + 16 * b1 + 8 * b2 + 4 * b3 + 2 * b4 + b5);
    assert(byte / 2 == 64 * b0 + 32 * b1 + 16 * b2 + 8 * b3 + 4 * b4 + 2 * b5 + b6);
    assert(byte / 1 == byte);
}

/// A byte is the sum of its binary digits by their weights.
proof fn lemma_byte_expansion(byte: u8)
    ensures
        byte == 128 * bit_digit(byte as nat, 7) + 64 * bit_digit(byte as nat, 6) + 32 * bit_digit(
            byte as nat,
            5,
        ) + 16 * bit_digit(byte as nat, 4) + 8 * bit_digit(byte as nat, 3) + 4 * bit_digit(
            byte as nat,
            2,
        ) + 2 * bit_digit(byte as nat, 1) + bit_digit(byte as nat, 0),
{
    lemma2_to64();
    assert(byte == 128 * ((byte / 128) % 2) + 64 * ((byte / 64) % 2) + 32 * ((byte / 32) % 2) + 16
        * ((byte / 16) % 2) + 8 * ((byte / 8) % 2) + 4 * ((byte / 4) % 2) + 2 * ((byte / 2) % 2)
        + ((byte / 1) % 2)) by (bit_vector);
}

/// Reading back what was written: the bits of the bytes of a bit string
/// are that bit string, and zero bits behind it up to a whole byte.
pub proof fn lemma_bits_of_written_bytes(bits: Seq<bool>)
    ensures
        bytes_to_bits(bits_to_bytes(bits)).len() == 8 * ((bits.len() + 7) / 8),
        forall|i: int|
            0 <= i < bytes_to_bits(bits_to_bytes(bits)).len() ==> #[trigger] bytes_to_bits(
                bits_to_bytes(bits),
            )[i] == (i < bits.len() && bits[i]),
        bytes_to_bits(bits_to_bytes(bits)).take(bits.len() as int) == bits,
{
    let bytes = bits_to_bytes(bits);
    let back = bytes_to_bits(bytes);
    assert forall|i: int| 0 <= i < back.len() implies back[i] == (i < bits.len() && bits[i]) by {
        let j = i / 8;
        let k = i % 8;
        lemma_byte_bits(
            padded_bit(bits, 8 * j),
            padded_bit(bits, 8 * j + 1),
            padded_bit(bits, 8 * j + 2),
            padded_bit(bits, 8 * j + 3),
            padded_bit(bits, 8 * j + 4),
            padded_bit(bits, 8 * j + 5),
            padded_bit(bits, 8 * j + 6),
            padded_bit(bits, 8 * j + 7),
        );
        assert(packed_byte(bits, j) <= 255);
        assert(bytes[j] == packed_byte(bits, j));
        assert(back[i] == bit_at(bytes[j] as nat, (7 - k) as nat));
        assert(bit_digit(bytes[j] as nat, (7 - k) as nat) == padded_bit(bits, 8 * j + k));
    }
    assert(back.take(bits.len() as int) =~= bits);
}

/// Writing what was read: the bytes of the bits of a byte string are that
/// byte string.
pub proof fn lemma_bytes_of_read_bits(bytes: Seq<u8>)
    ensures
        bits_to_bytes(bytes_to_bits(bytes)) == bytes,
{
    let bits = bytes_to_bits(bytes);
    let back = bits_to_bytes(bits);
    assert(back.len() == bytes.len());
    assert forall|j: int| 0 <= j < bytes.len() implies back[j] == bytes[j] by {
        let byte = bytes[j];
        lemma_byte_expansion(byte);
        assert(padded_bit(bits, 8 * j) == bit_digit(byte as nat, 7)) by {
            assert((8 * j) / 8 == j && (8 * j) % 8 == 0);
        }
        assert(padded_bit(bits, 8 * j + 1) == bit_digit(byte as nat, 6)) by {
            assert((8 * j + 1) / 8 == j && (8 * j + 1) % 8 == 1);
        }
        assert(padded_bit(bits, 8 * j + 2) == bit_digit(byte as nat, 5)) by {
            assert((8 * j + 2) / 8 == j && (8 * j + 2) % 8 == 2);
        }
        assert(padded_bit(bits, 8 * j + 3) == bit_digit(byte as nat, 4)) by {
            assert((8 * j + 3) / 8 == j && (8 * j + 3) % 8 == 3);
        }
        assert(padded_bit(bits, 8 * j + 4) == bit_digit(byte as nat, 3)) by {
            assert((8 * j + 4) / 8 == j && (8 * j + 4) % 8 == 4);
        }
        assert(padded_bit(bits, 8 * j + 5) == bit_digit(byte as nat, 2)) by {
            assert((8 * j + 5) / 8 == j && (8 * j + 5) % 8 == 5);
        }
        assert(padded_bit(bits, 8 * j + 6) == bit_digit(byte as nat, 1)) by {
            assert((8 * j + 6) / 8 == j && (8 * j + 6) % 8 == 6);
        }
        assert(padded_bit(bits, 8 * j + 7) == bit_digit(byte as nat, 0)) by {
            assert((8 * j + 7) / 8 == j && (8 * j + 7) % 8 == 7);
        }
        assert(packed_byte(bits, j) == byte);
    }
    assert(back =~= bytes);
}

/// `BitVec::new`: the vector it returns holds no bits.
#[verifier::external_body]
pub(crate) fn bits_new() -> (buffer: BitBuffer)
    ensures
        bits_of(buffer) == Seq::<bool>::empty(),
{
    BitBuffer { inner: BitVec::new() }
}

/// `BitVec::push`: the bit is added behind the others. The vector keeps its
/// length in the upper bits of a word, so a push onto `max_bits()` bits is
/// left out.
#[verifier::external_body]
pub(crate) fn bits_push(buffer: &mut BitBuffer, bit: bool)
    requires
        bits_of(*old(buffer)).len() < max_bits(),
    ensures
        bits_of(*final(buffer)) == bits_of(*old(buffer)).push(bit),
{
    buffer.inner.push(bit)
}

/// `BitVec::append`: the bits of `other` are added behind those of `buffer`
/// in their order, and `other` is left empty. It reserves room for the sum of
/// the two lengths and panics if that is more than `max_bits()`.
#[verifier::external_body]
pub(crate) fn bits_append(buffer: &mut BitBuffer, other: &mut BitBuffer)
    requires
        bits_of(*old(buffer)).len() + bits_of(*old(other)).len() <= max_bits(),
    ensures
        bits_of(*final(buffer)) == bits_of(*old(buffer)) + bits_of(*old(other)),
        bits_of(*final(other)) == Seq::<bool>::empty(),
{
    buffer.inner.append(&mut other.inner)
}

/// `BitVec::len`: the number of bits held. The vector reads it from the
/// upper bits of a word, so it is never more than `max_bits()`.
#[verifier::external_body]
pub(crate) fn bits_len(buffer: &BitBuffer) -> (n: usize)
    ensures
        n == bits_of(*buffer).len(),
        n <= max_bits(),
{
    buffer.inner.len()
}

/// `BitSlice::get` with a position: the bit there, or `None` at or past the
/// end.
#[verifier::external_body]
pub(crate) fn bits_get(buffer: &BitBuffer, index: usize) -> (bit: Option<bool>)
    ensures
        bit == if index < bits_of(*buffer).len() {
            Some(bits_of(*buffer)[index as int])
        } else {
            None
        },
{
    buffer.inner.get(index).copied()
}

/// `BitVec::from_vec`: the vector spans the bytes given, each byte read from
/// its most significant bit down. It panics if their bits are more than
/// `max_bits()`. Of an empty `Vec` it forgets the allocation and keeps the
/// capacity, which goes wrong when the vector is dropped, so an empty `Vec`
/// is left out.
#[verifier::external_body]
pub(crate) fn bits_from_vec(bytes: Vec<u8>) -> (buffer: BitBuffer)
    requires
        1 <= bytes.len(),
        8 * bytes.len() <= max_bits(),
    ensures
        bits_of(buffer) == bytes_to_bits(bytes@),
{
    BitBuffer { inner: BitVec::from_vec(bytes) }
}

/// `BitStore::get` on a `u64` in `Lsb0` order: whether the bit at `index`,
/// counted from the least significant, is set. An index of 64 or more is not
/// a bit of a `u64`.
#[verifier::external_body]
pub(crate) fn u64_bit(value: u64, index: u8) -> (bit: bool)
    requires
        index < 64,
    ensures
        bit == bit_at(value as nat, index as nat),
{
    value.get::<Lsb0>(BitIdx::new(index).unwrap())
}

impl Clone for BitBuffer {
    /// `BitVec::clone`: the copy holds the same bits.
    #[verifier::external_body]
    fn clone(&self) -> (copy: Self)
        ensures
            bits_of(copy) == bits_of(*self),
    {
        BitBuffer { inner: self.inner.clone() }
    }
}

impl BitBuffer {
    /// The number of bits in the buffer.
    pub fn len(&self) -> (n: usize)
        ensures
            n == self@.len(),
            n <= max_bits(),
    {
        bits_len(self)
    }

    /// The bit at `index`, or `None` where the buffer has ended.
    pub fn get(&self, index: usize) -> (bit: Option<bool>)
        ensures
            bit == if index < self@.len() {
                Some(self@[index as int])
            } else {
                None
            },
    {
        bits_get(self, index)
    }

    /// `weight` where the bit at `index` is set, and zero where it is not or
    /// the buffer has ended.
    fn bit_weight(&self, index: usize, weight: u8) -> (w: u8)
        ensures
            w == weight * padded_bit(self@, index as int),
    {
        match bits_get(self, index) {
            Some(true) => weight,
            _ => 0,
        }
    }

    /// The bits as bytes, eight to a byte and the first of them the most
    /// significant, with zeros behind the last bit up to the end of its byte.
    pub fn to_bytes(&self) -> (bytes: Vec<u8>)
        ensures
            bytes@ == bits_to_bytes(self@),
    {
        let len = bits_len(self);
        let count = (len + 7) / 8;
        let mut bytes: Vec<u8> = Vec::new();
        let mut j: usize = 0;
        while j < count
            invariant
                j <= count,
                count == (self@.len() + 7) / 8,
                self@.len() <= max_bits(),
                bytes@ == Seq::new(j as nat, |k: int| packed_byte(self@, k) as u8),
            decreases count - j,
        {
            let base = 8 * j;
            let byte = self.bit_weight(base, 128) + self.bit_weight(base + 1, 64)
                + self.bit_weight(base + 2, 32) + self.bit_weight(base + 3, 16) + self.bit_weight(
                base + 4,
                8,
            ) + self.bit_weight(base + 5, 4) + self.bit_weight(base + 6, 2) + self.bit_weight(
                base + 7,
                1,
            );
            bytes.push(byte);
            j = j + 1;
        }
        bytes
    }

    /// The buffer over the bits of `bytes`, the most significant bit of each
    /// byte first.
    pub fn from_bytes(bytes: Vec<u8>) -> (buffer: Self)
        requires
            8 * bytes.len() <= max_bits(),
        ensures
            buffer@ == bytes_to_bits(bytes@),
    {
        if bytes.len() == 0 {
            let buffer = bits_new();
            assert(buffer@ =~= bytes_to_bits(bytes@));
            buffer
        } else {
            bits_from_vec(bytes)
        }
    }
}

/// A cursor over a bit buffer: it hands out the bits one by one and knows
/// when none is left.
pub struct BitReader<'a> {
    bits: &'a BitBuffer,
    len: usize,
    pos: usize,
}

impl<'a> BitReader<'a> {
    /// All the bits of the buffer that is read.
    pub closed spec fn all_bits(&self) -> Seq<bool> {
        self.bits@
    }

    /// The number of bits read so far.
    pub closed spec fn position(&self) -> nat {
        self.pos as nat
    }

    /// The length that the cursor keeps is that of its buffer.
    pub closed spec fn knows_length(&self) -> bool {
        self.len == self.bits@.len()
    }

    /// The cursor stands inside its buffer or at its end.
    pub open spec fn wf(&self) -> bool {
        self.knows_length() && self.position() <= self.all_bits().len() <= max_bits()
    }

    /// The bits that are still to be read.
    pub open spec fn remaining(&self) -> Seq<bool> {
        self.all_bits().skip(self.position() as int)
    }

    /// A cursor at the start of `bits`.
    pub fn new(bits: &'a BitBuffer) -> (reader: Self)
        ensures
            reader.wf(),
            reader.all_bits() == bits@,
            reader.position() == 0,
    {
        BitReader { bits, len: bits_len(bits), pos: 0 }
    }

    /// Whether every bit has been read.
    pub fn is_exhausted(&self) -> (done: bool)
        requires
            self.wf(),
        ensures
            done == (self.remaining().len() == 0),
    {
        self.pos >= self.len
    }

    /// Reads the next bit and moves past it; `None` once the buffer is
    /// exhausted.
    pub fn next_bit(&mut self) -> (bit: Option<bool>)
        requires
            old(self).wf(),
        ensures
            final(self).wf(),
            final(self).all_bits() == old(self).all_bits(),
            match bit {
                Some(b) => old(self).remaining().len() > 0 && b == old(self).remaining()[0]
                    && final(self).position() == old(self).position() + 1,
                None => old(self).remaining().len() == 0 && final(self).position() == old(self).position(),
            },
    {
        if self.pos < self.len {
            let bit = bits_get(self.bits, self.pos);
            self.pos = self.pos + 1;
            bit
        } else {
            None
        }
    }

    /// Moves to the end of the buffer, so that nothing is left to read.
    pub fn skip_to_end(&mut self)
        requires
            old(self).wf(),
        ensures
            final(self).wf(),
            final(self).all_bits() == old(self).all_bits(),
            final(self).remaining().len() == 0,
    {
        self.pos = self.len;
    }
}

} // verus!
