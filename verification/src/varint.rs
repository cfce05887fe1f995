use vstd::prelude::*;
use crate::bits::{
    field, number_bits, lemma_field_bound, lemma_field_of_written, lemma_number_bits_value,
};
use crate::cursor::BitCursor;
use crate::error::{DecodeError, VarintFault};
use vstd::arithmetic::power2::lemma2_to64;

verus! {

/// What the first byte of a variable-length number announces: the count of
/// continuation bytes and the value bits that the byte itself carries.
///
/// The byte opens with a run of one bits. An empty run makes the byte the
/// whole number. A run of two to six announces one continuation byte fewer
/// than its length, and the bits below the zero that ends the run are the
/// leading value bits. A run of one, or of more than six, is no number.
pub open spec fn varint_lead(first: nat) -> Option<(nat, nat)> {
    if first < 0x80 {
        Some((0nat, first))
    } else if first < 0xC0 {
        None
    } else if first < 0xE0 {
        Some((1nat, (first - 0xC0) as nat))
    } else if first < 0xF0 {
        Some((2nat, (first - 0xE0) as nat))
    } else if first < 0xF8 {
        Some((3nat, (first - 0xF0) as nat))
    } else if first < 0xFC {
        Some((4nat, (first - 0xF8) as nat))
    } else if first < 0xFE {
        Some((5nat, (first - 0xFC) as nat))
    } else {
        None
    }
}

/// The number after `count` continuation bytes, the first of them at bit
/// `pos`: each byte must open with the bits `10` and appends its six low bits.
pub open spec fn varint_tail(bits: Seq<bool>, pos: int, lead: nat, count: nat) -> Result<
    nat,
    DecodeError,
>
    decreases count,
{
    if count == 0 {
        Ok(lead)
    } else {
        match varint_tail(bits, pos, lead, (count - 1) as nat) {
            Err(e) => Err(e),
            Ok(high) => {
                let at = pos + 8 * (count - 1);
                if at + 8 > bits.len() {
                    Err(DecodeError::UnexpectedEndOfInput)
                } else if field(bits, at, 8) / 64 != 2 {
                    Err(DecodeError::InvalidVarint(VarintFault::MalformedVarint))
                } else {
                    Ok(high * 64 + field(bits, at, 8) % 64)
                }
            },
        }
    }
}

/// The variable-length number at bit `pos`, with the position after it.
pub open spec fn varint_at(bits: Seq<bool>, pos: int) -> Result<(nat, int), DecodeError> {
    if pos + 8 > bits.len() {
        Err(DecodeError::UnexpectedEndOfInput)
    } else {
        match varint_lead(field(bits, pos, 8)) {
            None => Err(DecodeError::InvalidVarint(VarintFault::InvalidVarintLength)),
            Some((count, lead)) => match varint_tail(bits, pos + 8, lead, count) {
                Err(e) => Err(e),
                Ok(value) => Ok((value, pos + 8 + 8 * count)),
            },
        }
    }
}

/// A failure among the first continuation bytes is the failure of the whole.
pub proof fn lemma_varint_tail_fails_on(
    bits: Seq<bool>,
    pos: int,
    lead: nat,
    seen: nat,
    count: nat,
)
    requires
        seen <= count,
        varint_tail(bits, pos, lead, seen) is Err,
    ensures
        varint_tail(bits, pos, lead, count) == varint_tail(bits, pos, lead, seen),
    decreases count,
{
    if seen < count {
        lemma_varint_tail_fails_on(bits, pos, lead, seen, (count - 1) as nat);
    }
}

/// The continuation bytes fail for want of input or for a malformed byte,
/// and for nothing else.
pub proof fn lemma_varint_tail_errors(bits: Seq<bool>, pos: int, lead: nat, count: nat)
    ensures
        match varint_tail(bits, pos, lead, count) {
            Ok(_) => true,
            Err(e) => e == DecodeError::UnexpectedEndOfInput || e == DecodeError::InvalidVarint(
                VarintFault::MalformedVarint,
            ),
        },
    decreases count,
{
    if count > 0 {
        lemma_varint_tail_errors(bits, pos, lead, (count - 1) as nat);
    }
}

/// A variable-length number takes up whole bytes, at most six of them.
pub proof fn lemma_varint_length(bits: Seq<bool>, pos: int)
    ensures
        varint_at(bits, pos) matches Ok((_, end)) ==> pos + 8 <= end <= pos + 48 && (end - pos) % 8
            == 0,
{
}

/// The count of continuation bytes that a number below `2^31` is written
/// with.
pub open spec fn varint_count(n: nat) -> nat {
    if n < 0x80 {
        0
    } else if n < 0x800 {
        1
    } else if n < 0x1_0000 {
        2
    } else if n < 0x20_0000 {
        3
    } else if n < 0x400_0000 {
        4
    } else {
        5
    }
}

/// The first byte of a number below `2^31`: a run of one bits that is one
/// longer than the count of continuation bytes, a zero bit, and the bits of
/// the number above those that the continuation bytes hold. A number below
/// `0x80` is its own first and only byte.
pub open spec fn varint_first(n: nat) -> nat {
    if n < 0x80 {
        n
    } else if n < 0x800 {
        0xC0 + n / 0x40
    } else if n < 0x1_0000 {
        0xE0 + n / 0x1000
    } else if n < 0x20_0000 {
        0xF0 + n / 0x4_0000
    } else if n < 0x400_0000 {
        0xF8 + n / 0x100_0000
    } else {
        0xFC + n / 0x4000_0000
    }
}

/// The last `count` groups of six bits of `n`, each in a continuation byte.
pub open spec fn varint_tail_bits(n: nat, count: nat) -> Seq<bool>
    decreases count,
{
    if count == 0 {
        Seq::empty()
    } else {
        varint_tail_bits(n / 64, (count - 1) as nat) + number_bits(0x80 + n % 64, 8)
    }
}

/// The bytes that a number below `2^31` is written as.
pub open spec fn varint_bits(n: nat) -> Seq<bool> {
    number_bits(varint_first(n), 8) + varint_tail_bits(n, varint_count(n))
}

/// What `count` groups of six bits of `n` make of the bits before them.
spec fn appended(lead: nat, n: nat, count: nat) -> nat
    decreases count,
{
    if count == 0 {
        lead
    } else {
        appended(lead, n / 64, (count - 1) as nat) * 64 + n % 64
    }
}

proof fn lemma_tail_bits_decode(
    before: Seq<bool>,
    lead: nat,
    n: nat,
    count: nat,
    after: Seq<bool>,
)
    ensures
        varint_tail_bits(n, count).len() == 8 * count,
        varint_tail(
            before + varint_tail_bits(n, count) + after,
            before.len() as int,
            lead,
            count,
        ) == Ok::<nat, DecodeError>(appended(lead, n, count)),
    decreases count,
{
    if count > 0 {
        let last = number_bits(0x80 + n % 64, 8);
        let head = varint_tail_bits(n / 64, (count - 1) as nat);
        let all = before + varint_tail_bits(n, count) + after;
        lemma2_to64();
        lemma_number_bits_value(0x80 + n % 64, 8);
        lemma_tail_bits_decode(before, lead, n / 64, (count - 1) as nat, last + after);
        assert(all =~= before + head + (last + after));
        lemma_field_of_written(before + head, 0x80 + n % 64, 8, after);
        assert(all =~= (before + head) + last + after);
    }
}

/// The first byte of a number announces its continuation bytes, and these
/// append what the first byte leaves out.
proof fn lemma_first_byte(n: nat)
    requires
        n < 0x8000_0000,
    ensures
        varint_first(n) < 0x100,
        varint_lead(varint_first(n)) matches Some((count, lead)) && count == varint_count(n)
            && appended(lead, n, count) == n,
{
    reveal_with_fuel(appended, 6);
    if n < 0x80 {
    } else if n < 0x800 {
        assert(n / 0x40 < 0x20);
    } else if n < 0x1_0000 {
        assert(n / 0x1000 < 0x10);
        assert((n / 0x40) / 0x40 == n / 0x1000);
    } else if n < 0x20_0000 {
        assert(n / 0x4_0000 < 8);
        assert((n / 0x40) / 0x40 == n / 0x1000);
        assert((n / 0x1000) / 0x40 == n / 0x4_0000);
    } else if n < 0x400_0000 {
        assert(n / 0x100_0000 < 4);
        assert((n / 0x40) / 0x40 == n / 0x1000);
        assert((n / 0x1000) / 0x40 == n / 0x4_0000);
        assert((n / 0x4_0000) / 0x40 == n / 0x100_0000);
    } else {
        assert(n / 0x4000_0000 < 2);
        assert((n / 0x40) / 0x40 == n / 0x1000);
        assert((n / 0x1000) / 0x40 == n / 0x4_0000);
        assert((n / 0x4_0000) / 0x40 == n / 0x100_0000);
        assert((n / 0x100_0000) / 0x40 == n / 0x4000_0000);
    }
}

/// Reading a number back gives the number that was written: wherever the
/// bytes of a number below `2^31` stand, and whatever follows them, they
/// decode to that number, and the number ends where its bytes end.
pub proof fn lemma_varint_round_trip(before: Seq<bool>, n: nat, after: Seq<bool>)
    requires
        n < 0x8000_0000,
    ensures
        varint_at(before + varint_bits(n) + after, before.len() as int) == Ok::<
            (nat, int),
            DecodeError,
        >((n, (before.len() + varint_bits(n).len()) as int)),
{
    let count = varint_count(n);
    let announced = varint_lead(varint_first(n))->0;
    let lead = announced.1;
    let first = number_bits(varint_first(n), 8);
    let tail = varint_tail_bits(n, count);
    let all = before + varint_bits(n) + after;
    lemma2_to64();
    lemma_first_byte(n);
    lemma_number_bits_value(varint_first(n), 8);
    assert(field(all, before.len() as int, 8) == varint_first(n)) by {
        lemma_field_of_written(before, varint_first(n), 8, tail + after);
        assert(all =~= before + first + (tail + after));
    }
    assert(varint_tail(all, (before.len() + 8) as int, lead, count) == Ok::<nat, DecodeError>(n)
        && tail.len() == 8 * count) by {
        lemma_tail_bits_decode(before + first, lead, n, count, after);
        assert(all =~= (before + first) + tail + after);
    }
}

/// Reads a variable-length number.
pub fn read_utf8_u64(cursor: &mut BitCursor) -> (value: Result<u64, DecodeError>)
    requires
        old(cursor).wf(),
    ensures
        final(cursor).wf(),
        final(cursor).bytes() == old(cursor).bytes(),
        old(cursor).position() <= final(cursor).position(),
        match value {
            Ok(v) => varint_at(old(cursor).bits(), old(cursor).position()) == Ok::<
                (nat, int),
                DecodeError,
            >((v as nat, final(cursor).position())),
            Err(e) => varint_at(old(cursor).bits(), old(cursor).position()) == Err::<
                (nat, int),
                DecodeError,
            >(e),
        },
{
    let ghost bits = cursor.bits();
    let ghost start = cursor.position();
    let first = cursor.read_bits(8)?;
    proof {
        lemma_field_bound(bits, start, 8);
        lemma2_to64();
    }
    let (count, lead): (u8, u64) = if first < 0x80 {
        (0, first)
    } else if first < 0xC0 {
        return Err(DecodeError::InvalidVarint(VarintFault::InvalidVarintLength));
    } else if first < 0xE0 {
        (1, first - 0xC0)
    } else if first < 0xF0 {
        (2, first - 0xE0)
    } else if first < 0xF8 {
        (3, first - 0xF0)
    } else if first < 0xFC {
        (4, first - 0xF8)
    } else if first < 0xFE {
        (5, first - 0xFC)
    } else {
        return Err(DecodeError::InvalidVarint(VarintFault::InvalidVarintLength));
    };
    let mut value: u64 = lead;
    let mut seen: u8 = 0;
    while seen < count
        invariant
            cursor.wf(),
            cursor.bytes() == old(cursor).bytes(),
            old(cursor).position() <= cursor.position(),
            bits == cursor.bits(),
            start == old(cursor).position(),
            start + 8 <= bits.len(),
            varint_lead(field(bits, start, 8)) == Some((count as nat, lead as nat)),
            seen <= count <= 5,
            cursor.position() == start + 8 + 8 * seen,
            varint_tail(bits, start + 8, lead as nat, seen as nat) == Ok::<nat, DecodeError>(
                value as nat,
            ),
            value < 0x80_0000_0000,
            seen == 0 ==> value < 0x80,
            seen == 1 ==> value < 0x2000,
            seen == 2 ==> value < 0x8_0000,
            seen == 3 ==> value < 0x200_0000,
            seen == 4 ==> value < 0x8000_0000,
        decreases count - seen,
    {
        let ghost at = cursor.position();
        let byte = match cursor.read_bits(8) {
            Ok(b) => b,
            Err(e) => {
                proof {
                    lemma_varint_tail_fails_on(
                        bits,
                        start + 8,
                        lead as nat,
                        (seen + 1) as nat,
                        count as nat,
                    );
                }
                return Err(e);
            },
        };
        proof {
            lemma_field_bound(bits, at, 8);
        }
        if byte / 64 != 2 {
            proof {
                lemma_varint_tail_fails_on(
                    bits,
                    start + 8,
                    lead as nat,
                    (seen + 1) as nat,
                    count as nat,
                );
            }
            return Err(DecodeError::InvalidVarint(VarintFault::MalformedVarint));
        }
        value = value * 64 + byte % 64;
        seen = seen + 1;
    }
    Ok(value)
}

} // verus!
