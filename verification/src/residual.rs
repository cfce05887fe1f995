use vstd::prelude::*;
use vstd::arithmetic::div_mod::lemma_fundamental_div_mod;
use vstd::arithmetic::power2::{pow2, lemma2_to64, lemma_pow2_pos, lemma_pow2_strictly_increases};
use crate::bits::{
    field, fits_signed, ints, number_bits, power_of_two, signed_pattern, signed_run,
    signed_run_bits, zero_run, lemma_field_bound, lemma_field_of_written,
    lemma_number_bits_value, lemma_signed_round_trip, lemma_signed_run_of_written,
    lemma_zero_run_bound,
};
use crate::cursor::BitCursor;
use crate::error::DecodeError;

verus! {

/// How the residuals of a partition are stored.
#[derive(Clone, Copy, Debug, PartialEq, Eq, Structural)]
pub enum PartitionCoding {
    /// As Rice codes with this parameter.
    Rice(u8),
    /// Raw, as signed numbers of this many bits.
    Escape(u8),
}

/// One partition of a residual: how it is stored, and its values.
#[derive(Debug)]
pub struct ResidualPartition {
    pub coding: PartitionCoding,
    pub values: Vec<i64>,
}

/// The code that stands for a signed number: the non-negative numbers take
/// the even codes, the negative ones the odd codes.
pub open spec fn zigzag_encode(value: int) -> nat {
    if value >= 0 {
        (2 * value) as nat
    } else {
        (-2 * value - 1) as nat
    }
}

/// The signed number that a code stands for.
pub open spec fn zigzag_decode(code: nat) -> int {
    if code % 2 == 0 {
        (code / 2) as int
    } else {
        -(((code + 1) / 2) as int)
    }
}

/// The code that a quotient and a remainder of `parameter` bits make up.
pub open spec fn rice_code(quotient: nat, remainder: nat, parameter: nat) -> nat {
    quotient * pow2(parameter) + remainder
}

/// The Rice-coded residual at bit `pos`, with the position after it: a run
/// of zero bits that counts the quotient, the one bit that ends it, and a
/// remainder of `parameter` bits.
pub open spec fn rice_at(bits: Seq<bool>, pos: int, parameter: nat) -> Result<
    (int, int),
    DecodeError,
> {
    let quotient = zero_run(bits, pos);
    let after = pos + quotient + 1;
    if after > bits.len() || after + parameter > bits.len() {
        Err(DecodeError::UnexpectedEndOfInput)
    } else {
        Ok(
            (
                zigzag_decode(
                    rice_code(quotient, field(bits, after, parameter as int), parameter),
                ),
                after + parameter,
            ),
        )
    }
}

/// `count` Rice-coded residuals one after the other from bit `pos`.
pub open spec fn rice_run(bits: Seq<bool>, pos: int, parameter: nat, count: nat) -> Result<
    (Seq<int>, int),
    DecodeError,
>
    decreases count,
{
    if count == 0 {
        Ok((Seq::empty(), pos))
    } else {
        match rice_run(bits, pos, parameter, (count - 1) as nat) {
            Err(e) => Err(e),
            Ok((values, at)) => match rice_at(bits, at, parameter) {
                Err(e) => Err(e),
                Ok((value, next)) => Ok((values.push(value), next)),
            },
        }
    }
}

/// `count` residuals stored raw, as signed fields of `width` bits.
pub open spec fn raw_run(bits: Seq<bool>, pos: int, width: nat, count: nat) -> Result<
    (Seq<int>, int),
    DecodeError,
> {
    if pos + width * count > bits.len() {
        Err(DecodeError::UnexpectedEndOfInput)
    } else {
        Ok((signed_run(bits, pos, width as int, count), pos + width * count))
    }
}

/// The parameter value, all ones, that marks a partition as stored raw.
pub const ESCAPE_CODE: u8 = 15;

/// How the partition at bit `pos` is stored, where its parameter and, after
/// the escape code, its width lie inside the input.
pub open spec fn coding_at(bits: Seq<bool>, pos: int) -> PartitionCoding {
    let parameter = field(bits, pos, 4);
    if parameter != ESCAPE_CODE {
        PartitionCoding::Rice(parameter as u8)
    } else {
        PartitionCoding::Escape(field(bits, pos + 4, 5) as u8)
    }
}

/// One partition of `count` residuals at bit `pos`: a parameter of four
/// bits, and then either Rice codes with that parameter or, after the escape
/// code, a width of five bits and raw values of that width.
pub open spec fn partition_at(bits: Seq<bool>, pos: int, count: nat) -> Result<
    (Seq<int>, int),
    DecodeError,
> {
    let parameter = field(bits, pos, 4);
    if pos + 4 > bits.len() {
        Err(DecodeError::UnexpectedEndOfInput)
    } else if parameter != ESCAPE_CODE {
        rice_run(bits, pos + 4, parameter, count)
    } else if pos + 9 > bits.len() {
        Err(DecodeError::UnexpectedEndOfInput)
    } else {
        raw_run(bits, pos + 9, field(bits, pos + 4, 5), count)
    }
}

/// The count of residuals in partition `index`: the first partition is
/// shorter by the predictor's order, whose warm-up samples it does not hold.
pub open spec fn partition_len(index: nat, size: nat, order: nat) -> nat {
    if index == 0 {
        (size - order) as nat
    } else {
        size
    }
}

/// The first `count` partitions from bit `pos`.
pub open spec fn partitions(bits: Seq<bool>, pos: int, order: nat, size: nat, count: nat)
    -> Result<(Seq<int>, int), DecodeError>
    decreases count,
{
    if count == 0 {
        Ok((Seq::empty(), pos))
    } else {
        match partitions(bits, pos, order, size, (count - 1) as nat) {
            Err(e) => Err(e),
            Ok((values, at)) => match partition_at(
                bits,
                at,
                partition_len((count - 1) as nat, size, order),
            ) {
                Err(e) => Err(e),
                Ok((more, next)) => Ok((values + more, next)),
            },
        }
    }
}

/// Whether a block of `block_size` samples, the first `order` of them warm-up
/// samples, can be cut into `count` partitions: the count must divide the
/// samples after the warm-up, the partitions must be of one size, and the
/// first must have room for the warm-up samples that it does not hold.
pub open spec fn partitions_tile(order: nat, block_size: nat, count: nat) -> bool {
    &&& order <= block_size
    &&& (block_size - order) % (count as int) == 0
    &&& block_size % count == 0
    &&& order <= block_size / count
}

/// The residual of a subframe at bit `pos`, for a predictor of the given
/// order in a block of `block_size` samples, with the position after it.
///
/// Two bits give the partition order `p`, and `2^p` partitions follow. Each
/// holds as many residuals as the block has samples for each partition; the
/// first holds fewer by the order of the predictor.
#[verifier::opaque]
pub open spec fn residual_at(bits: Seq<bool>, pos: int, order: nat, block_size: nat) -> Result<
    (Seq<int>, int),
    DecodeError,
> {
    let count = pow2(field(bits, pos, 2));
    if pos + 2 > bits.len() {
        Err(DecodeError::UnexpectedEndOfInput)
    } else if !partitions_tile(order, block_size, count) {
        Err(DecodeError::InvalidPartitionOrder)
    } else {
        partitions(bits, pos + 2, order, block_size / count, count)
    }
}

/// Whether the bits from `pos` hold `values`, each as a pattern of `width`
/// bits in two's complement.
pub open spec fn holds_raw_values(bits: Seq<bool>, pos: int, width: nat, values: Seq<int>) -> bool {
    &&& pos + width * values.len() <= bits.len()
    &&& forall|i: int|
        0 <= i < values.len() ==> #[trigger] field(bits, pos + i * width, width as int)
            == signed_pattern(values[i], width)
}

/// Decoding undoes encoding, for every number.
pub proof fn lemma_zigzag_round_trip(value: int)
    ensures
        zigzag_decode(zigzag_encode(value)) == value,
{
}

/// Encoding undoes decoding, for every code.
pub proof fn lemma_zigzag_code_round_trip(code: nat)
    ensures
        zigzag_encode(zigzag_decode(code)) == code,
{
}

/// A quotient of zero with a remainder of zero is the residual 0, whatever
/// the parameter.
pub proof fn lemma_rice_zero(parameter: nat)
    ensures
        zigzag_decode(rice_code(0, 0, parameter)) == 0,
{
    assert(0 * pow2(parameter) == 0) by (nonlinear_arith);
}

/// A failure among the first residuals of a run is the failure of the run.
pub proof fn lemma_rice_run_fails_on(
    bits: Seq<bool>,
    pos: int,
    parameter: nat,
    seen: nat,
    count: nat,
)
    requires
        seen <= count,
        rice_run(bits, pos, parameter, seen) is Err,
    ensures
        rice_run(bits, pos, parameter, count) == rice_run(bits, pos, parameter, seen),
    decreases count,
{
    if seen < count {
        lemma_rice_run_fails_on(bits, pos, parameter, seen, (count - 1) as nat);
    }
}

/// A failure among the first partitions is the failure of the residual.
pub proof fn lemma_partitions_fail_on(
    bits: Seq<bool>,
    pos: int,
    order: nat,
    size: nat,
    seen: nat,
    count: nat,
)
    requires
        seen <= count,
        partitions(bits, pos, order, size, seen) is Err,
    ensures
        partitions(bits, pos, order, size, count) == partitions(bits, pos, order, size, seen),
    decreases count,
{
    if seen < count {
        lemma_partitions_fail_on(bits, pos, order, size, seen, (count - 1) as nat);
    }
}

/// A partition whose values were stored raw gives those values back: where
/// the bits hold the escape code, a width, and the patterns of `values` at
/// that width, decoding the partition returns exactly `values`.
pub proof fn lemma_escape_partition_round_trip(
    bits: Seq<bool>,
    pos: nat,
    width: nat,
    values: Seq<int>,
)
    requires
        width < 32,
        forall|i: int| 0 <= i < values.len() ==> width == 0 && values[i] == 0 || fits_signed(
            #[trigger] values[i],
            width,
        ),
        pos + 9 <= bits.len(),
        field(bits, pos as int, 4) == ESCAPE_CODE,
        field(bits, pos as int + 4, 5) == width,
        holds_raw_values(bits, pos as int + 9, width, values),
    ensures
        partition_at(bits, pos as int, values.len()) == Ok::<(Seq<int>, int), DecodeError>(
            (values, (pos + 9 + width * values.len()) as int),
        ),
{
    let start = pos as int + 9;
    let decoded = signed_run(bits, start, width as int, values.len());
    assert forall|i: int| 0 <= i < values.len() implies decoded[i] == values[i] by {
        assert(field(bits, start + i * width, width as int) == signed_pattern(values[i], width));
        if width > 0 {
            lemma_signed_round_trip(values[i], width);
        } else {
            lemma2_to64();
        }
    }
    assert(decoded =~= values);
}

/// The bits of a Rice code for `value`: the quotient of its code by
/// `2^parameter` as a run of zero bits, a one bit, and the remainder in
/// `parameter` bits.
pub open spec fn rice_bits(value: int, parameter: nat) -> Seq<bool> {
    let code = zigzag_encode(value);
    Seq::new(code / pow2(parameter), |i: int| false).push(true) + number_bits(
        code % pow2(parameter),
        parameter,
    )
}

/// A run of zero bits that a one bit ends is counted in full.
proof fn lemma_zero_run_of_written(before: Seq<bool>, run: nat, after: Seq<bool>, from: nat)
    requires
        from <= run,
    ensures
        zero_run(
            before + Seq::new(run, |i: int| false).push(true) + after,
            (before.len() + from) as int,
        ) == run - from,
    decreases run - from,
{
    let all = before + Seq::new(run, |i: int| false).push(true) + after;
    if from < run {
        assert(!all[(before.len() + from) as int]);
        lemma_zero_run_of_written(before, run, after, from + 1);
    } else {
        assert(all[(before.len() + run) as int]);
    }
}

/// Writing a residual as a Rice code and decoding it gives the residual back:
/// wherever the bits of the code stand, and whatever follows them, the code
/// decodes to the number that was written, and ends where its bits end.
pub proof fn lemma_rice_code_decodes(
    before: Seq<bool>,
    value: int,
    parameter: nat,
    after: Seq<bool>,
)
    ensures
        rice_at(before + rice_bits(value, parameter) + after, before.len() as int, parameter)
            == Ok::<(int, int), DecodeError>(
            (value, (before.len() + rice_bits(value, parameter).len()) as int),
        ),
{
    let code = zigzag_encode(value);
    let quotient = code / pow2(parameter);
    let remainder = code % pow2(parameter);
    let run = Seq::new(quotient, |i: int| false).push(true);
    let all = before + rice_bits(value, parameter) + after;
    lemma_pow2_pos(parameter);
    lemma_fundamental_div_mod(code as int, pow2(parameter) as int);
    lemma_number_bits_value(remainder, parameter);
    lemma_zero_run_of_written(before, quotient, number_bits(remainder, parameter) + after, 0);
    assert(all =~= before + run + (number_bits(remainder, parameter) + after));
    lemma_field_of_written(before + run, remainder, parameter, after);
    assert(all =~= (before + run) + number_bits(remainder, parameter) + after);
    assert(quotient * pow2(parameter) == pow2(parameter) * quotient) by (nonlinear_arith);
    lemma_zigzag_round_trip(value);
}

/// The bits of a partition that stores `values` raw at `width` bits: the
/// escape code, the width in five bits, and the patterns of the values.
pub open spec fn escaped_partition_bits(width: nat, values: Seq<int>) -> Seq<bool> {
    number_bits(ESCAPE_CODE as nat, 4) + number_bits(width, 5) + signed_run_bits(values, width)
}

/// Storing values raw and decoding them gives the same values back: wherever
/// the bits of an escaped partition stand, and whatever follows them, the
/// partition decodes to the values that were written, and ends where its bits
/// end.
pub proof fn lemma_escaped_partition_decodes(
    before: Seq<bool>,
    width: nat,
    values: Seq<int>,
    after: Seq<bool>,
)
    requires
        width < 32,
        forall|i: int| 0 <= i < values.len() ==> width == 0 && values[i] == 0 || fits_signed(
            #[trigger] values[i],
            width,
        ),
    ensures
        partition_at(
            before + escaped_partition_bits(width, values) + after,
            before.len() as int,
            values.len(),
        ) == Ok::<(Seq<int>, int), DecodeError>(
            (values, (before.len() + escaped_partition_bits(width, values).len()) as int),
        ),
{
    let code = number_bits(ESCAPE_CODE as nat, 4);
    let size = number_bits(width, 5);
    let body = signed_run_bits(values, width);
    let all = before + escaped_partition_bits(width, values) + after;
    lemma2_to64();
    lemma_number_bits_value(ESCAPE_CODE as nat, 4);
    lemma_number_bits_value(width, 5);
    assert(field(all, before.len() as int, 4) == ESCAPE_CODE) by {
        lemma_field_of_written(before, ESCAPE_CODE as nat, 4, size + body + after);
        assert(all =~= before + code + (size + body + after));
    }
    assert(field(all, (before.len() + 4) as int, 5) == width) by {
        lemma_field_of_written(before + code, width, 5, body + after);
        assert(all =~= (before + code) + size + (body + after));
    }
    assert(holds_raw_values(all, (before.len() + 9) as int, width, values)) by {
        lemma_signed_run_of_written(before + code + size, values, width, after);
        assert(all =~= (before + code + size) + body + after);
    }
    assert(body.len() == width * values.len()) by {
        lemma_signed_run_of_written(before + code + size, values, width, after);
    }
    lemma_escape_partition_round_trip(all, before.len(), width, values);
}

/// The signed number that a code stands for.
pub fn zigzag(code: u64) -> (value: i64)
    ensures
        value == zigzag_decode(code as nat),
{
    if code % 2 == 0 {
        (code / 2) as i64
    } else {
        -(((code - 1) / 2) as i64) - 1
    }
}

/// Reads one Rice-coded residual.
fn read_rice(cursor: &mut BitCursor, parameter: u32) -> (value: Result<i64, DecodeError>)
    requires
        old(cursor).wf(),
        parameter <= 30,
    ensures
        final(cursor).wf(),
        final(cursor).bytes() == old(cursor).bytes(),
        old(cursor).position() <= final(cursor).position(),
        match value {
            Ok(v) => rice_at(old(cursor).bits(), old(cursor).position(), parameter as nat) == Ok::<
                (int, int),
                DecodeError,
            >((v as int, final(cursor).position())),
            Err(e) => rice_at(old(cursor).bits(), old(cursor).position(), parameter as nat)
                == Err::<(int, int), DecodeError>(e),
        },
{
    let ghost bits = cursor.bits();
    let ghost pos = cursor.position();
    proof {
        lemma_zero_run_bound(bits, pos);
    }
    let quotient = cursor.read_unary()?;
    let ghost after = cursor.position();
    let remainder = cursor.read_bits(parameter)?;
    proof {
        lemma_field_bound(bits, after, parameter as int);
        lemma_pow2_strictly_increases(parameter as nat, 31);
        lemma2_to64();
        assert(quotient * pow2(parameter as nat) <= 0xFFFF_FFFF * 0x8000_0000) by (nonlinear_arith)
            requires
                quotient <= 0xFFFF_FFFF,
                pow2(parameter as nat) <= 0x8000_0000,
        ;
    }
    let scale = power_of_two(parameter);
    let code: u64 = (quotient as u64) * scale + remainder;
    Ok(zigzag(code))
}

/// Reads `count` Rice-coded residuals.
fn read_rice_run(cursor: &mut BitCursor, parameter: u32, count: u32) -> (values: Result<
    Vec<i64>,
    DecodeError,
>)
    requires
        old(cursor).wf(),
        parameter <= 30,
    ensures
        final(cursor).wf(),
        final(cursor).bytes() == old(cursor).bytes(),
        old(cursor).position() <= final(cursor).position(),
        match values {
            Ok(v) => v@.len() == count && rice_run(
                old(cursor).bits(),
                old(cursor).position(),
                parameter as nat,
                count as nat,
            ) == Ok::<(Seq<int>, int), DecodeError>((ints(v@), final(cursor).position())),
            Err(e) => rice_run(
                old(cursor).bits(),
                old(cursor).position(),
                parameter as nat,
                count as nat,
            ) == Err::<(Seq<int>, int), DecodeError>(e),
        },
{
    let ghost bits = cursor.bits();
    let ghost start = cursor.position();
    let mut out: Vec<i64> = Vec::new();
    let mut i: u32 = 0;
    assert(ints(out@) =~= Seq::<int>::empty());
    while i < count
        invariant
            cursor.wf(),
            cursor.bytes() == old(cursor).bytes(),
            old(cursor).position() <= cursor.position(),
            bits == cursor.bits(),
            start == old(cursor).position(),
            parameter <= 30,
            i <= count,
            out@.len() == i,
            rice_run(bits, start, parameter as nat, i as nat) == Ok::<(Seq<int>, int), DecodeError>(
                (ints(out@), cursor.position()),
            ),
        decreases count - i,
    {
        let ghost before = ints(out@);
        match read_rice(cursor, parameter) {
            Ok(v) => {
                out.push(v);
                assert(ints(out@) =~= before.push(v as int));
            },
            Err(e) => {
                proof {
                    lemma_rice_run_fails_on(
                        bits,
                        start,
                        parameter as nat,
                        (i + 1) as nat,
                        count as nat,
                    );
                }
                return Err(e);
            },
        }
        i = i + 1;
    }
    Ok(out)
}

impl ResidualPartition {
    /// Reads one partition of `count` residuals.
    pub fn decode(cursor: &mut BitCursor, count: u32) -> (partition: Result<
        ResidualPartition,
        DecodeError,
    >)
        requires
            old(cursor).wf(),
        ensures
            final(cursor).wf(),
            final(cursor).bytes() == old(cursor).bytes(),
            old(cursor).position() <= final(cursor).position(),
            match partition {
                Ok(p) => {
                    &&& partition_at(old(cursor).bits(), old(cursor).position(), count as nat)
                        == Ok::<(Seq<int>, int), DecodeError>(
                        (ints(p.values@), final(cursor).position()),
                    )
                    &&& p.coding == coding_at(old(cursor).bits(), old(cursor).position())
                    &&& p.values@.len() == count
                },
                Err(e) => partition_at(old(cursor).bits(), old(cursor).position(), count as nat)
                    == Err::<(Seq<int>, int), DecodeError>(e),
            },
    {
        let ghost bits = cursor.bits();
        let ghost pos = cursor.position();
        let parameter = cursor.read_bits(4)?;
        proof {
            lemma_field_bound(bits, pos, 4);
            lemma2_to64();
        }
        if parameter != ESCAPE_CODE as u64 {
            let values = read_rice_run(cursor, parameter as u32, count)?;
            Ok(ResidualPartition { coding: PartitionCoding::Rice(parameter as u8), values })
        } else {
            let width = cursor.read_bits(5)?;
            proof {
                lemma_field_bound(bits, pos + 4, 5);
            }
            let values = cursor.read_signed_run(width as u32, count)?;
            assert(values@.len() == ints(values@).len());
            Ok(ResidualPartition { coding: PartitionCoding::Escape(width as u8), values })
        }
    }
}

/// Reads the residual of a subframe: `block_size - order` numbers.
pub fn decode_rice_residual(cursor: &mut BitCursor, order: u8, block_size: u32) -> (residual:
    Result<Vec<i64>, DecodeError>)
    requires
        old(cursor).wf(),
    ensures
        final(cursor).wf(),
        final(cursor).bytes() == old(cursor).bytes(),
        old(cursor).position() <= final(cursor).position(),
        match residual {
            Ok(v) => v@.len() == block_size - order && residual_at(
                old(cursor).bits(),
                old(cursor).position(),
                order as nat,
                block_size as nat,
            ) == Ok::<(Seq<int>, int), DecodeError>((ints(v@), final(cursor).position())),
            Err(e) => residual_at(
                old(cursor).bits(),
                old(cursor).position(),
                order as nat,
                block_size as nat,
            ) == Err::<(Seq<int>, int), DecodeError>(e),
        },
{
    proof {
        reveal(residual_at);
    }
    let ghost bits = cursor.bits();
    let ghost pos = cursor.position();
    let partition_order = cursor.read_bits(2)?;
    proof {
        lemma_field_bound(bits, pos, 2);
        lemma2_to64();
    }
    let count: u32 = power_of_two(partition_order as u32) as u32;
    if block_size < order as u32 || (block_size - order as u32) % count != 0 || block_size % count
        != 0 || block_size / count < order as u32 {
        return Err(DecodeError::InvalidPartitionOrder);
    }
    let size: u32 = block_size / count;
    assert(size * count == block_size) by (nonlinear_arith)
        requires
            count > 0,
            block_size % count == 0,
            size == block_size / count,
    ;
    let ghost first = cursor.position();
    let mut out: Vec<i64> = Vec::new();
    let mut i: u32 = 0;
    assert(ints(out@) =~= Seq::<int>::empty());
    while i < count
        invariant
            cursor.wf(),
            cursor.bytes() == old(cursor).bytes(),
            old(cursor).position() <= cursor.position(),
            bits == cursor.bits(),
            pos == old(cursor).position(),
            first == pos + 2,
            first <= bits.len(),
            count == pow2(field(bits, pos, 2)),
            count > 0,
            partitions_tile(order as nat, block_size as nat, count as nat),
            size == block_size / count,
            i <= count,
            size >= order,
            size * count == block_size,
            i == 0 ==> out@.len() == 0,
            i > 0 ==> out@.len() == i * size - order,
            partitions(bits, first, order as nat, size as nat, i as nat) == Ok::<
                (Seq<int>, int),
                DecodeError,
            >((ints(out@), cursor.position())),
        decreases count - i,
    {
        let ghost before = ints(out@);
        let len: u32 = if i == 0 {
            size - order as u32
        } else {
            size
        };
        match ResidualPartition::decode(cursor, len) {
            Ok(partition) => {
                let mut more = partition.values;
                let ghost added = ints(more@);
                assert((i + 1) * size == i * size + size) by (nonlinear_arith);
                assert((i + 1) * size <= count * size) by (nonlinear_arith)
                    requires
                        i < count,
                ;
                out.append(&mut more);
                assert(ints(out@) =~= before + added);
            },
            Err(e) => {
                proof {
                    reveal(residual_at);
                    lemma_partitions_fail_on(
                        bits,
                        first,
                        order as nat,
                        size as nat,
                        (i + 1) as nat,
                        count as nat,
                    );
                }
                return Err(e);
            },
        }
        i = i + 1;
    }
    assert(count * size == size * count) by (nonlinear_arith);
    Ok(out)
}

} // verus!
