use vstd::prelude::*;
use bitstream_io::{BigEndian, BitRead, BitReader};
use vstd::arithmetic::power2::{
    pow2, lemma2_to64_rest, lemma_pow2_strictly_increases, lemma_pow2_unfold,
};
use vstd::slice::slice_subrange;
use crate::bits::{
    bits_of, bits_value, field, ints, power_of_two, signed_field, signed_run, twos_complement,
    zero_run, lemma_field_bound, lemma_field_of_skip, lemma_zero_run_bound,
    lemma_zero_run_of_skip,
};
use crate::error::DecodeError;

verus! {

/// A `BitReader` of `bitstream_io` over a byte slice, big-endian. What is
/// inside it is hidden from the verifier; `unread_bits` stands for its state.
#[verifier::external_body]
pub struct BitSource<'a> {
    inner: BitReader<&'a [u8], BigEndian>,
}

/// The bits that a reader has yet to hand out, in the order in which it will.
pub uninterp spec fn unread_bits(reader: BitSource) -> Seq<bool>;

/// `BitReader::endian` over a byte slice, big-endian: nothing is read yet, so
/// every bit of the slice is still to come.
#[verifier::external_body]
fn open_reader<'a>(data: &'a [u8]) -> (reader: BitSource<'a>)
    ensures
        unread_bits(reader) == bits_of(data@),
{
    BitSource { inner: BitReader::endian(data, BigEndian) }
}

/// `BitRead::read_unsigned_var` into a `u64`. Where at least `count` bits are
/// unread, the call hands out the next `count` bits as a number, most
/// significant bit first, and those bits are gone from the reader.
#[verifier::external_body]
fn take_bits(reader: &mut BitSource, count: u32) -> (value: Option<u64>)
    requires
        count <= 64,
    ensures
        count <= unread_bits(*old(reader)).len() ==> value == Some(
            bits_value(unread_bits(*old(reader)).take(count as int)) as u64,
        ) && unread_bits(*final(reader)) == unread_bits(*old(reader)).skip(count as int),
{
    reader.inner.read_unsigned_var::<u64>(count).ok()
}

/// `BitRead::read_unary` with a stop bit of one. The call succeeds exactly
/// where a one bit is still to come; it then hands out the count of zero bits
/// before that bit, and those bits and the one bit are gone from the reader.
#[verifier::external_body]
fn take_unary(reader: &mut BitSource) -> (run: Option<u32>)
    requires
        unread_bits(*old(reader)).len() <= u32::MAX,
    ensures
        run is Some <==> zero_run(unread_bits(*old(reader)), 0) < unread_bits(*old(reader)).len(),
        run matches Some(k) ==> k == zero_run(unread_bits(*old(reader)), 0) && unread_bits(
            *final(reader),
        ) == unread_bits(*old(reader)).skip(k + 1),
{
    reader.inner.read_unary::<1>().ok()
}

/// The longest input that a cursor takes: its bit count still fits 32 bits.
pub const MAX_INPUT_BYTES: usize = 0x1FFF_FFFF;

/// A reading position in a byte slice, kept in step with a big-endian bit
/// reader over that slice.
pub struct BitCursor<'a> {
    data: &'a [u8],
    source: BitSource<'a>,
    consumed: usize,
}

impl<'a> BitCursor<'a> {
    /// The bytes under the cursor, read or not.
    pub closed spec fn bytes(&self) -> Seq<u8> {
        self.data@
    }

    /// The count of bits read so far.
    pub closed spec fn position(&self) -> int {
        self.consumed as int
    }

    /// The bits under the cursor, read or not.
    pub open spec fn bits(&self) -> Seq<bool> {
        bits_of(self.bytes())
    }

    /// The reader holds exactly the bits after the position.
    pub closed spec fn in_step(&self) -> bool {
        unread_bits(self.source) == bits_of(self.data@).skip(self.consumed as int)
    }

    /// Whether the cursor can be read from: its input is not too long, its
    /// position lies inside the input, and its reader is in step with it.
    pub open spec fn wf(&self) -> bool {
        &&& self.bytes().len() <= MAX_INPUT_BYTES
        &&& 0 <= self.position() <= self.bits().len()
        &&& self.in_step()
    }

    /// A cursor at the first bit of `data`, or nothing where `data` is too long.
    pub fn new(data: &'a [u8]) -> (cursor: Option<Self>)
        ensures
            cursor is Some <==> data@.len() <= MAX_INPUT_BYTES,
            cursor matches Some(c) ==> c.wf() && c.bytes() == data@ && c.position() == 0,
    {
        if data.len() > MAX_INPUT_BYTES {
            return None;
        }
        let source = open_reader(data);
        assert(bits_of(data@).skip(0) =~= bits_of(data@));
        Some(BitCursor { data, source, consumed: 0 })
    }

    /// The bytes under the cursor.
    pub fn data(&self) -> (data: &'a [u8])
        ensures
            data@ == self.bytes(),
    {
        self.data
    }

    /// The count of bits read so far.
    pub fn bit_position(&self) -> (position: usize)
        ensures
            position == self.position(),
    {
        self.consumed
    }

    /// The count of bits still to be read.
    pub fn remaining_bits(&self) -> (count: usize)
        requires
            self.wf(),
        ensures
            count == self.bits().len() - self.position(),
    {
        self.data.len() * 8 - self.consumed
    }

    /// Reads an unsigned field of `count` bits, or fails at the position where
    /// it stands when fewer bits are left.
    pub fn read_bits(&mut self, count: u32) -> (value: Result<u64, DecodeError>)
        requires
            old(self).wf(),
            count <= 64,
        ensures
            final(self).wf(),
            final(self).bytes() == old(self).bytes(),
            old(self).position() <= final(self).position(),
            match value {
                Ok(v) => {
                    &&& old(self).position() + count <= old(self).bits().len()
                    &&& v == field(old(self).bits(), old(self).position(), count as int)
                    &&& final(self).position() == old(self).position() + count
                },
                Err(e) => {
                    &&& e == DecodeError::UnexpectedEndOfInput
                    &&& old(self).position() + count > old(self).bits().len()
                    &&& final(self).position() == old(self).position()
                },
            },
    {
        if count as usize > self.data.len() * 8 - self.consumed {
            return Err(DecodeError::UnexpectedEndOfInput);
        }
        let ghost bits = self.bits();
        let ghost pos = self.position();
        proof {
            lemma_field_of_skip(bits, pos, count as int);
            lemma_field_bound(bits, pos, count as int);
            if count < 64 {
                lemma_pow2_strictly_increases(count as nat, 64);
            }
            lemma2_to64_rest();
        }
        match take_bits(&mut self.source, count) {
            Some(v) => {
                self.consumed = self.consumed + count as usize;
                assert(bits.skip(pos).skip(count as int) =~= bits.skip(pos + count));
                Ok(v)
            },
            None => Err(DecodeError::UnexpectedEndOfInput),
        }
    }

    /// Reads a two's-complement field of `count` bits.
    pub fn read_signed(&mut self, count: u32) -> (value: Result<i64, DecodeError>)
        requires
            old(self).wf(),
            1 <= count <= 64,
        ensures
            final(self).wf(),
            final(self).bytes() == old(self).bytes(),
            old(self).position() <= final(self).position(),
            match value {
                Ok(v) => {
                    &&& old(self).position() + count <= old(self).bits().len()
                    &&& v == signed_field(old(self).bits(), old(self).position(), count as int)
                    &&& final(self).position() == old(self).position() + count
                },
                Err(e) => {
                    &&& e == DecodeError::UnexpectedEndOfInput
                    &&& old(self).position() + count > old(self).bits().len()
                    &&& final(self).position() == old(self).position()
                },
            },
    {
        let raw = self.read_bits(count)?;
        proof {
            lemma_field_bound(old(self).bits(), old(self).position(), count as int);
        }
        Ok(sign_extend(raw, count))
    }

    /// Reads a run of zero bits and the one bit that ends it, and returns the
    /// length of the run. Where no one bit is left, the rest of the input is
    /// used up.
    pub fn read_unary(&mut self) -> (run: Result<u32, DecodeError>)
        requires
            old(self).wf(),
        ensures
            final(self).wf(),
            final(self).bytes() == old(self).bytes(),
            old(self).position() <= final(self).position(),
            match run {
                Ok(k) => {
                    &&& k == zero_run(old(self).bits(), old(self).position())
                    &&& old(self).position() + k < old(self).bits().len()
                    &&& final(self).position() == old(self).position() + k + 1
                },
                Err(e) => {
                    &&& e == DecodeError::UnexpectedEndOfInput
                    &&& old(self).position() + zero_run(old(self).bits(), old(self).position())
                        == old(self).bits().len()
                    &&& final(self).position() == old(self).bits().len()
                },
            },
    {
        let ghost bits = self.bits();
        let ghost pos = self.position();
        proof {
            lemma_zero_run_of_skip(bits, pos, 0);
            lemma_zero_run_bound(bits, pos);
        }
        match take_unary(&mut self.source) {
            Some(k) => {
                self.consumed = self.consumed + k as usize + 1;
                assert(bits.skip(pos).skip(k + 1) =~= bits.skip(pos + k + 1));
                Ok(k)
            },
            None => {
                self.seal();
                Err(DecodeError::UnexpectedEndOfInput)
            },
        }
    }

    /// Puts the cursor at the end of its input.
    fn seal(&mut self)
        requires
            old(self).bytes().len() <= MAX_INPUT_BYTES,
            old(self).position() <= old(self).bits().len(),
        ensures
            final(self).wf(),
            final(self).bytes() == old(self).bytes(),
            old(self).position() <= final(self).position(),
            final(self).position() == old(self).bits().len(),
    {
        let end = self.data.len();
        let rest = slice_subrange(self.data, end, end);
        self.source = open_reader(rest);
        self.consumed = end * 8;
        assert(bits_of(rest@) =~= bits_of(self.data@).skip(self.consumed as int));
    }

    /// Reads `count` two's-complement fields of `width` bits each; a width of
    /// zero gives zeros. Fails where the fields do not all lie inside the input.
    pub fn read_signed_run(&mut self, width: u32, count: u32) -> (values: Result<
        Vec<i64>,
        DecodeError,
    >)
        requires
            old(self).wf(),
            width <= 64,
        ensures
            final(self).wf(),
            final(self).bytes() == old(self).bytes(),
            old(self).position() <= final(self).position(),
            match values {
                Ok(v) => {
                    &&& old(self).position() + width * count <= old(self).bits().len()
                    &&& ints(v@) == signed_run(
                        old(self).bits(),
                        old(self).position(),
                        width as int,
                        count as nat,
                    )
                    &&& final(self).position() == old(self).position() + width * count
                },
                Err(e) => {
                    &&& e == DecodeError::UnexpectedEndOfInput
                    &&& old(self).position() + width * count > old(self).bits().len()
                },
            },
    {
        let ghost bits = self.bits();
        let ghost start = self.position();
        assert(width * count <= 64 * 0xFFFF_FFFF) by (nonlinear_arith)
            requires
                width <= 64,
                count <= 0xFFFF_FFFF,
        ;
        if width as u64 * count as u64 > self.remaining_bits() as u64 {
            return Err(DecodeError::UnexpectedEndOfInput);
        }
        let mut out: Vec<i64> = Vec::new();
        let mut i: u32 = 0;
        while i < count
            invariant
                self.wf(),
                self.bytes() == old(self).bytes(),
                old(self).position() <= self.position(),
                bits == self.bits(),
                start == old(self).position(),
                width <= 64,
                i <= count,
                start + width * count <= bits.len(),
                self.position() == start + i * width,
                out@.len() == i,
                forall|j: int|
                    0 <= j < i ==> out@[j] == signed_field(bits, start + j * width, width as int),
            decreases count - i,
        {
            assert(i * width + width <= width * count) by (nonlinear_arith)
                requires
                    i < count,
            ;
            let value = if width == 0 {
                proof {
                    assert(bits.subrange(start + i * width, start + i * width + 0).len() == 0);
                }
                0
            } else {
                match self.read_signed(width) {
                    Ok(v) => v,
                    Err(e) => { return Err(e); },
                }
            };
            out.push(value);
            assert((i + 1) * width == i * width + width) by (nonlinear_arith);
            i = i + 1;
        }
        assert(count * width == width * count) by (nonlinear_arith);
        assert(ints(out@) =~= signed_run(bits, start, width as int, count as nat));
        Ok(out)
    }

    /// Skips the bits up to the next byte boundary; at one, it does nothing.
    pub fn align_to_byte(&mut self)
        requires
            old(self).wf(),
        ensures
            final(self).wf(),
            final(self).bytes() == old(self).bytes(),
            old(self).position() <= final(self).position(),
            final(self).position() == next_boundary(old(self).position()),
    {
        let used = self.consumed % 8;
        if used != 0 {
            let gap: u32 = (8 - used) as u32;
            let _ = self.read_bits(gap);
        }
    }
}

/// The first byte boundary at or after bit `pos`.
pub open spec fn next_boundary(pos: int) -> int {
    pos + (8 - pos % 8) % 8
}

/// The two's-complement reading of a `count`-bit pattern.
pub fn sign_extend(raw: u64, count: u32) -> (value: i64)
    requires
        1 <= count <= 64,
        raw < pow2(count as nat),
    ensures
        value == twos_complement(raw as nat, count as nat),
{
    let half = power_of_two(count - 1);
    proof {
        lemma_pow2_unfold(count as nat);
        lemma2_to64_rest();
        if count < 64 {
            lemma_pow2_strictly_increases((count - 1) as nat, 63);
        }
    }
    if raw >= half {
        let low: u64 = raw - half;
        (low as i64) - ((half - 1) as i64) - 1
    } else {
        raw as i64
    }
}

} // verus!
