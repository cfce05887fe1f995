use vstd::prelude::*;
use vstd::arithmetic::power2::{
    pow2, lemma_pow2_pos, lemma_pow2_strictly_increases, lemma_pow2_unfold, lemma2_to64,
};
use vstd::bits::{lemma_u64_pow2_no_overflow, lemma_u64_shl_is_mul};

verus! {

/// Bit `j` of a byte, counted from the most significant bit.
pub open spec fn byte_bit(b: u8, j: int) -> bool {
    (b as nat / pow2((7 - j) as nat)) % 2 == 1
}

/// The bits of a byte sequence in the order in which a big-endian reader meets
/// them: byte after byte, each from its most significant bit down.
pub open spec fn bits_of(data: Seq<u8>) -> Seq<bool> {
    Seq::new(8 * data.len(), |i: int| byte_bit(data[i / 8], i % 8))
}

/// The number that a run of bits spells, most significant bit first.
pub open spec fn bits_value(bits: Seq<bool>) -> nat
    decreases bits.len(),
{
    if bits.len() == 0 {
        0
    } else {
        2 * bits_value(bits.drop_last()) + if bits.last() { 1nat } else { 0nat }
    }
}

/// The unsigned field of `n` bits that starts at bit `pos`.
pub open spec fn field(bits: Seq<bool>, pos: int, n: int) -> nat {
    bits_value(bits.subrange(pos, pos + n))
}

/// The two's-complement reading of an `n`-bit pattern `u`.
pub open spec fn twos_complement(u: nat, n: nat) -> int {
    if n > 0 && u >= pow2((n - 1) as nat) {
        u - pow2(n)
    } else {
        u as int
    }
}

/// The signed field of `n` bits that starts at bit `pos`.
pub open spec fn signed_field(bits: Seq<bool>, pos: int, n: int) -> int {
    twos_complement(field(bits, pos, n), n as nat)
}

/// Whether `v` can be written in `n` bits of two's complement.
pub open spec fn fits_signed(v: int, n: nat) -> bool {
    n > 0 && -(pow2((n - 1) as nat) as int) <= v < pow2((n - 1) as nat)
}

/// The `n`-bit two's-complement pattern of `v`.
pub open spec fn signed_pattern(v: int, n: nat) -> nat {
    if v >= 0 {
        v as nat
    } else {
        (v + pow2(n)) as nat
    }
}

/// `count` signed fields of `width` bits each, one after the other from `pos`.
pub open spec fn signed_run(bits: Seq<bool>, pos: int, width: int, count: nat) -> Seq<int> {
    Seq::new(count, |i: int| signed_field(bits, pos + i * width, width))
}

/// The numbers in a sequence of machine integers.
pub open spec fn ints(values: Seq<i64>) -> Seq<int> {
    Seq::new(values.len(), |i: int| values[i] as int)
}

/// The count of zero bits from `pos` up to the next one bit, or up to the end.
pub open spec fn zero_run(bits: Seq<bool>, pos: int) -> nat
    decreases bits.len() - pos,
{
    if pos < 0 || pos >= bits.len() || bits[pos] {
        0
    } else {
        1 + zero_run(bits, pos + 1)
    }
}

/// Whether every number in `values` can be written in `n` bits of two's
/// complement.
pub open spec fn all_fit(values: Seq<int>, n: nat) -> bool {
    forall|i: int| 0 <= i < values.len() ==> fits_signed(#[trigger] values[i], n)
}

/// `2^k` as a machine integer.
pub(crate) fn power_of_two(k: u32) -> (p: u64)
    requires
        k < 64,
    ensures
        p == pow2(k as nat),
{
    proof {
        lemma_u64_pow2_no_overflow(k as nat);
        lemma_u64_shl_is_mul(1, k as u64);
    }
    1u64 << (k as u64)
}

/// The bounds of the numbers that `width` bits of two's complement hold.
pub(crate) fn signed_bounds(width: u32) -> (bounds: (i64, i64))
    requires
        1 <= width <= 33,
    ensures
        bounds.0 == -(pow2((width - 1) as nat) as int),
        bounds.1 == pow2((width - 1) as nat) - 1,
        -0x1_0000_0000 <= bounds.0 < 0,
        0 <= bounds.1 < 0x1_0000_0000,
{
    let half = power_of_two(width - 1);
    proof {
        lemma2_to64();
        lemma_pow2_pos((width - 1) as nat);
        if width < 33 {
            lemma_pow2_strictly_increases((width - 1) as nat, 32);
        }
    }
    (-(half as i64), (half - 1) as i64)
}

/// Copies a list of numbers that all fit `depth` bits.
pub(crate) fn checked_copy(channel: &Vec<i64>, depth: u32) -> (copy: Option<Vec<i64>>)
    requires
        1 <= depth <= 33,
    ensures
        copy is Some <==> all_fit(ints(channel@), depth as nat),
        copy matches Some(v) ==> v@ == channel@,
{
    let (low, high) = signed_bounds(depth);
    let mut out: Vec<i64> = Vec::new();
    let mut i: usize = 0;
    while i < channel.len()
        invariant
            1 <= depth <= 33,
            i <= channel@.len(),
            low == -(pow2((depth - 1) as nat) as int),
            high == pow2((depth - 1) as nat) - 1,
            out@ == channel@.take(i as int),
            forall|j: int| 0 <= j < i ==> fits_signed(#[trigger] ints(channel@)[j], depth as nat),
        decreases channel@.len() - i,
    {
        let value = channel[i];
        if value < low || value > high {
            assert(!fits_signed(ints(channel@)[i as int], depth as nat));
            return None;
        }
        out.push(value);
        assert(out@ =~= channel@.take(i + 1));
        i = i + 1;
    }
    assert(out@ =~= channel@);
    Some(out)
}

/// A run of `n` bits spells a number below `2^n`.
pub proof fn lemma_bits_value_bound(bits: Seq<bool>)
    ensures
        bits_value(bits) < pow2(bits.len()),
    decreases bits.len(),
{
    if bits.len() == 0 {
        lemma2_to64();
    } else {
        lemma_bits_value_bound(bits.drop_last());
        lemma_pow2_unfold(bits.len());
    }
}

/// A field of `n` bits is below `2^n`.
pub proof fn lemma_field_bound(bits: Seq<bool>, pos: int, n: int)
    requires
        0 <= pos,
        0 <= n,
        pos + n <= bits.len(),
    ensures
        field(bits, pos, n) < pow2(n as nat),
{
    lemma_bits_value_bound(bits.subrange(pos, pos + n));
}

/// Two runs written one after the other spell the first number shifted left by
/// the length of the second, plus the second number.
pub proof fn lemma_bits_value_concat(a: Seq<bool>, b: Seq<bool>)
    ensures
        bits_value(a + b) == bits_value(a) * pow2(b.len()) + bits_value(b),
    decreases b.len(),
{
    if b.len() == 0 {
        assert(a + b =~= a);
        lemma2_to64();
        assert(bits_value(a) * pow2(0) == bits_value(a)) by (nonlinear_arith)
            requires
                pow2(0) == 1,
        ;
    } else {
        let n = (b.len() - 1) as nat;
        assert((a + b).drop_last() =~= a + b.drop_last());
        assert((a + b).last() == b.last());
        lemma_bits_value_concat(a, b.drop_last());
        lemma_pow2_unfold(b.len());
        assert(bits_value(a) * pow2(b.len()) == 2 * (bits_value(a) * pow2(n))) by (nonlinear_arith)
            requires
                pow2(b.len()) == 2 * pow2(n),
        ;
    }
}

/// A field splits into a leading and a trailing field.
pub proof fn lemma_field_split(bits: Seq<bool>, pos: int, n: int, m: int)
    requires
        0 <= pos,
        0 <= n,
        0 <= m,
        pos + n + m <= bits.len(),
    ensures
        field(bits, pos, n + m) == field(bits, pos, n) * pow2(m as nat) + field(bits, pos + n, m),
{
    assert(bits.subrange(pos, pos + n + m) =~= bits.subrange(pos, pos + n) + bits.subrange(
        pos + n,
        pos + n + m,
    ));
    lemma_bits_value_concat(bits.subrange(pos, pos + n), bits.subrange(pos + n, pos + n + m));
}

/// The same bits read through a window that starts at `pos`.
pub proof fn lemma_field_of_skip(bits: Seq<bool>, pos: int, n: int)
    requires
        0 <= pos,
        0 <= n,
        pos + n <= bits.len(),
    ensures
        bits_value(bits.skip(pos).take(n)) == field(bits, pos, n),
{
    assert(bits.skip(pos).take(n) =~= bits.subrange(pos, pos + n));
}

/// A run counted through a window that starts at `pos`.
pub proof fn lemma_zero_run_of_skip(bits: Seq<bool>, pos: int, from: int)
    requires
        0 <= pos <= bits.len(),
        0 <= from,
    ensures
        zero_run(bits.skip(pos), from) == zero_run(bits, pos + from),
    decreases bits.len() - pos - from,
{
    if from < bits.len() - pos && !bits[pos + from] {
        lemma_zero_run_of_skip(bits, pos, from + 1);
    }
}

/// A run of zero bits ends inside the sequence or at its end.
pub proof fn lemma_zero_run_bound(bits: Seq<bool>, pos: int)
    requires
        0 <= pos <= bits.len(),
    ensures
        pos + zero_run(bits, pos) <= bits.len(),
        forall|i: int| pos <= i < pos + zero_run(bits, pos) ==> !#[trigger] bits[i],
        pos + zero_run(bits, pos) < bits.len() ==> bits[pos + zero_run(bits, pos)],
    decreases bits.len() - pos,
{
    if pos < bits.len() && !bits[pos] {
        lemma_zero_run_bound(bits, pos + 1);
    }
}

/// The first `j` bits of byte `k` spell the byte without its low `8 - j` bits.
proof fn lemma_byte_prefix(data: Seq<u8>, k: int, j: int)
    requires
        0 <= k < data.len(),
        0 <= j <= 8,
    ensures
        field(bits_of(data), 8 * k, j) == data[k] as nat / pow2((8 - j) as nat),
    decreases j,
{
    lemma2_to64();
    let bits = bits_of(data);
    let run = bits.subrange(8 * k, 8 * k + j);
    let d = data[k] as nat;
    if j == 0 {
        assert(run.len() == 0);
        assert(d / 256 == 0);
    } else {
        lemma_byte_prefix(data, k, j - 1);
        assert(run.drop_last() =~= bits.subrange(8 * k, 8 * k + j - 1));
        assert(run.last() == byte_bit(data[k], j - 1));
        let low = d / pow2((8 - j) as nat);
        let high = d / pow2((9 - j) as nat);
        assert(bits_value(run) == 2 * high + if low % 2 == 1 { 1nat } else { 0nat });
        assert(low == 2 * high + low % 2) by {
            if j == 1 {
                assert(d / 128 == 2 * (d / 256) + (d / 128) % 2);
            } else if j == 2 {
                assert(d / 64 == 2 * (d / 128) + (d / 64) % 2);
            } else if j == 3 {
                assert(d / 32 == 2 * (d / 64) + (d / 32) % 2);
            } else if j == 4 {
                assert(d / 16 == 2 * (d / 32) + (d / 16) % 2);
            } else if j == 5 {
                assert(d / 8 == 2 * (d / 16) + (d / 8) % 2);
            } else if j == 6 {
                assert(d / 4 == 2 * (d / 8) + (d / 4) % 2);
            } else if j == 7 {
                assert(d / 2 == 2 * (d / 4) + (d / 2) % 2);
            } else {
                assert(d / 1 == 2 * (d / 2) + (d / 1) % 2);
            }
        }
    }
}

/// At a byte boundary, a field of eight bits is the byte that stands there.
pub proof fn lemma_byte_field(data: Seq<u8>, k: int)
    requires
        0 <= k < data.len(),
    ensures
        field(bits_of(data), 8 * k, 8) == data[k],
{
    lemma_byte_prefix(data, k, 8);
    lemma2_to64();
}

/// The `n` bits that spell `u`, most significant bit first.
pub open spec fn number_bits(u: nat, n: nat) -> Seq<bool>
    decreases n,
{
    if n == 0 {
        Seq::empty()
    } else {
        number_bits(u / 2, (n - 1) as nat).push(u % 2 == 1)
    }
}

/// The numbers of a list, each written as a pattern of `width` bits in two's
/// complement, one after the other.
pub open spec fn signed_run_bits(values: Seq<int>, width: nat) -> Seq<bool>
    decreases values.len(),
{
    if values.len() == 0 {
        Seq::empty()
    } else {
        signed_run_bits(values.drop_last(), width) + number_bits(
            signed_pattern(values.last(), width),
            width,
        )
    }
}

/// Bits that spell a number spell it back.
pub proof fn lemma_number_bits_value(u: nat, n: nat)
    requires
        u < pow2(n),
    ensures
        number_bits(u, n).len() == n,
        bits_value(number_bits(u, n)) == u,
    decreases n,
{
    if n > 0 {
        lemma_pow2_unfold(n);
        lemma_number_bits_value(u / 2, (n - 1) as nat);
        assert(number_bits(u, n).drop_last() =~= number_bits(u / 2, (n - 1) as nat));
    } else {
        lemma2_to64();
    }
}

/// A number that was written into a sequence of bits is the field at the
/// place where it was written.
pub proof fn lemma_field_of_written(before: Seq<bool>, u: nat, n: nat, after: Seq<bool>)
    requires
        u < pow2(n),
    ensures
        field(before + number_bits(u, n) + after, before.len() as int, n as int) == u,
{
    lemma_number_bits_value(u, n);
    let all = before + number_bits(u, n) + after;
    assert(all.subrange(before.len() as int, (before.len() + n) as int) =~= number_bits(u, n));
}

/// A list of numbers that was written into a sequence of bits is held there.
pub proof fn lemma_signed_run_of_written(
    before: Seq<bool>,
    values: Seq<int>,
    width: nat,
    after: Seq<bool>,
)
    requires
        forall|i: int| 0 <= i < values.len() ==> width == 0 && values[i] == 0 || fits_signed(
            #[trigger] values[i],
            width,
        ),
    ensures
        signed_run_bits(values, width).len() == width * values.len(),
        forall|i: int|
            0 <= i < values.len() ==> #[trigger] field(
                before + signed_run_bits(values, width) + after,
                before.len() + i * width,
                width as int,
            ) == signed_pattern(values[i], width),
    decreases values.len(),
{
    let all = before + signed_run_bits(values, width) + after;
    if values.len() == 0 {
        assert(width * 0 == 0) by (nonlinear_arith);
    } else {
        let head = values.drop_last();
        let last = values.last();
        let tail = number_bits(signed_pattern(last, width), width);
        if width > 0 {
            lemma_signed_round_trip(last, width);
        } else {
            lemma2_to64();
        }
        lemma_number_bits_value(signed_pattern(last, width), width);
        lemma_signed_run_of_written(before, head, width, tail + after);
        assert(all =~= before + signed_run_bits(head, width) + (tail + after));
        assert(width * values.len() == width * head.len() + width) by (nonlinear_arith)
            requires
                values.len() == head.len() + 1,
        ;
        assert forall|i: int| 0 <= i < values.len() implies #[trigger] field(
            all,
            before.len() + i * width,
            width as int,
        ) == signed_pattern(values[i], width) by {
            if i < head.len() {
                assert(values[i] == head[i]);
            } else {
                assert(i * width == width * head.len()) by (nonlinear_arith)
                    requires
                        i == head.len(),
                ;
                assert(all =~= (before + signed_run_bits(head, width)) + tail + after);
                lemma_field_of_written(
                    before + signed_run_bits(head, width),
                    signed_pattern(last, width),
                    width,
                    after,
                );
            }
        }
    }
}

/// Fields that were read at a width fit that width.
pub proof fn lemma_signed_run_fits(bits: Seq<bool>, pos: int, width: nat, count: nat)
    requires
        0 <= pos,
        width > 0,
        pos + width * count <= bits.len(),
    ensures
        all_fit(signed_run(bits, pos, width as int, count), width),
{
    let run = signed_run(bits, pos, width as int, count);
    assert forall|i: int| 0 <= i < run.len() implies fits_signed(#[trigger] run[i], width) by {
        assert(i * width + width <= width * count) by (nonlinear_arith)
            requires
                0 <= i < count,
        ;
        assert(0 <= i * width) by (nonlinear_arith)
            requires
                0 <= i,
        ;
        lemma_field_bound(bits, pos + i * width, width as int);
        lemma_twos_complement_fits(field(bits, pos + i * width, width as int), width);
    }
}

/// Reading a pattern back gives the number that was written.
pub proof fn lemma_signed_round_trip(v: int, n: nat)
    requires
        fits_signed(v, n),
    ensures
        signed_pattern(v, n) < pow2(n),
        twos_complement(signed_pattern(v, n), n) == v,
{
    lemma_pow2_unfold(n);
    lemma_pow2_pos((n - 1) as nat);
}

/// The signed reading of an `n`-bit pattern can be written in `n` bits.
pub proof fn lemma_twos_complement_fits(u: nat, n: nat)
    requires
        n > 0,
        u < pow2(n),
    ensures
        fits_signed(twos_complement(u, n), n),
{
    lemma_pow2_unfold(n);
    lemma_pow2_pos((n - 1) as nat);
}

} // verus!
