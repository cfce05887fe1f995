use vstd::prelude::*;
use vstd::arithmetic::power2::{
    pow2, lemma2_to64, lemma_pow2_adds, lemma_pow2_pos, lemma_pow2_strictly_increases,
};
use crate::bits::{
    all_fit, checked_copy, field, fits_signed, ints, power_of_two, signed_bounds, signed_field,
    signed_run,
    zero_run, lemma_field_bound, lemma_field_split, lemma_twos_complement_fits,
};
use crate::cursor::BitCursor;
use crate::error::DecodeError;
use crate::predict::{
    fixed_prediction, fixed_restore, lpc, lpc_restore, lemma_fixed_samples_grow,
    lemma_lpc_samples_grow,
};
use crate::residual::{decode_rice_residual, residual_at};

verus! {

/// How the samples of one channel are stored in a frame.
#[derive(Debug)]
pub enum Prediction {
    /// One sample, which every sample of the block repeats.
    Constant { value: i64 },
    /// Every sample of the block as it is.
    Verbatim { samples: Vec<i64> },
    /// A fixed polynomial predictor of order 0 to 4.
    Fixed { order: u8, warmup: Vec<i64>, residual: Vec<i64> },
    /// A linear predictor of order 1 to 32 with its own coefficients.
    Lpc {
        order: u8,
        precision: u8,
        shift: i8,
        coefficients: Vec<i64>,
        warmup: Vec<i64>,
        residual: Vec<i64>,
    },
}

/// One channel of a frame as it was read, before its samples are restored.
#[derive(Debug)]
pub struct Subframe {
    pub prediction: Prediction,
    /// The count of low zero bits that every sample has lost.
    pub wasted_bits: u32,
}

/// What a `Prediction` holds, as numbers and sequences.
pub enum PredictionModel {
    Constant { value: int },
    Verbatim { samples: Seq<int> },
    Fixed { order: nat, warmup: Seq<int>, residual: Seq<int> },
    Lpc {
        order: nat,
        precision: nat,
        shift: int,
        coefficients: Seq<int>,
        warmup: Seq<int>,
        residual: Seq<int>,
    },
}

/// What a `Subframe` holds, as numbers and sequences.
pub struct SubframeModel {
    pub prediction: PredictionModel,
    pub wasted_bits: nat,
}

impl View for Prediction {
    type V = PredictionModel;

    open spec fn view(&self) -> PredictionModel {
        match self {
            Prediction::Constant { value } => PredictionModel::Constant { value: *value as int },
            Prediction::Verbatim { samples } => PredictionModel::Verbatim {
                samples: ints(samples@),
            },
            Prediction::Fixed { order, warmup, residual } => PredictionModel::Fixed {
                order: *order as nat,
                warmup: ints(warmup@),
                residual: ints(residual@),
            },
            Prediction::Lpc {
                order,
                precision,
                shift,
                coefficients,
                warmup,
                residual,
            } => PredictionModel::Lpc {
                order: *order as nat,
                precision: *precision as nat,
                shift: *shift as int,
                coefficients: ints(coefficients@),
                warmup: ints(warmup@),
                residual: ints(residual@),
            },
        }
    }
}

impl View for Subframe {
    type V = SubframeModel;

    open spec fn view(&self) -> SubframeModel {
        SubframeModel { prediction: self.prediction@, wasted_bits: self.wasted_bits as nat }
    }
}

impl SubframeModel {
    /// Whether the parts of a subframe agree with each other, with the width
    /// of its channel and with the size of its block.
    pub open spec fn well_formed(self, width: nat, block_size: nat) -> bool {
        &&& self.wasted_bits < width
        &&& match self.prediction {
            PredictionModel::Constant { value } => true,
            PredictionModel::Verbatim { samples } => samples.len() == block_size,
            PredictionModel::Fixed { order, warmup, residual } => {
                &&& order <= 4
                &&& warmup.len() == order
                &&& order + residual.len() == block_size
            },
            PredictionModel::Lpc { order, precision, shift, coefficients, warmup, residual } => {
                &&& order <= 32
                &&& coefficients.len() == order
                &&& all_fit(coefficients, 15)
                &&& -16 <= shift <= 15
                &&& warmup.len() == order
                &&& order + residual.len() == block_size
            },
        }
    }
}

/// The count of wasted bits that is announced at bit `pos`, with the position
/// after it: a flag, and where it is set, a run of zero bits that a one bit
/// ends; the count is then the length of the run plus one.
pub open spec fn wasted_at(bits: Seq<bool>, pos: int) -> Result<(nat, int), DecodeError> {
    let run = zero_run(bits, pos + 1);
    if pos + 1 > bits.len() {
        Err(DecodeError::UnexpectedEndOfInput)
    } else if field(bits, pos, 1) == 0 {
        Ok((0nat, pos + 1))
    } else if pos + 1 + run >= bits.len() {
        Err(DecodeError::UnexpectedEndOfInput)
    } else {
        Ok((run + 1, pos + 1 + run + 1))
    }
}

/// Whether a subframe type code is in use: 0 is a constant, 1 is verbatim, 8
/// to 12 are the fixed predictors of order 0 to 4, and 32 to 63 the linear
/// predictors of order 1 to 32.
pub open spec fn type_in_use(code: nat) -> bool {
    code <= 1 || 8 <= code <= 12 || 32 <= code <= 63
}

/// The body of a subframe with a fixed predictor: the warm-up samples and the
/// residual.
pub open spec fn fixed_at(bits: Seq<bool>, pos: int, order: nat, width: nat, block_size: nat)
    -> Result<(PredictionModel, int), DecodeError> {
    let after_warmup = pos + width * order;
    if after_warmup > bits.len() {
        Err(DecodeError::UnexpectedEndOfInput)
    } else {
        match residual_at(bits, after_warmup, order, block_size) {
            Err(e) => Err(e),
            Ok((residual, end)) => Ok(
                (
                    PredictionModel::Fixed {
                        order,
                        warmup: signed_run(bits, pos, width as int, order),
                        residual,
                    },
                    end,
                ),
            ),
        }
    }
}

/// The body of a subframe with a linear predictor: the precision of the
/// coefficients less one in four bits, where all ones are reserved; the shift
/// as a signed number of five bits; the coefficients; the warm-up samples;
/// and the residual.
pub open spec fn lpc_at(bits: Seq<bool>, pos: int, order: nat, width: nat, block_size: nat)
    -> Result<(PredictionModel, int), DecodeError> {
    let precision = field(bits, pos, 4) + 1;
    let after_coefficients = pos + 9 + precision * order;
    let after_warmup = after_coefficients + width * order;
    if pos + 4 > bits.len() {
        Err(DecodeError::UnexpectedEndOfInput)
    } else if precision == 16 {
        Err(DecodeError::ReservedFieldUsed)
    } else if pos + 9 > bits.len() || after_coefficients > bits.len() || after_warmup
        > bits.len() {
        Err(DecodeError::UnexpectedEndOfInput)
    } else {
        match residual_at(bits, after_warmup, order, block_size) {
            Err(e) => Err(e),
            Ok((residual, end)) => Ok(
                (
                    PredictionModel::Lpc {
                        order,
                        precision,
                        shift: signed_field(bits, pos + 4, 5),
                        coefficients: signed_run(bits, pos + 9, precision as int, order),
                        warmup: signed_run(bits, after_coefficients, width as int, order),
                        residual,
                    },
                    end,
                ),
            ),
        }
    }
}

/// The body of a subframe of the given type at bit `pos`, its samples being
/// `width` bits wide.
pub open spec fn prediction_at(
    bits: Seq<bool>,
    pos: int,
    code: nat,
    width: nat,
    block_size: nat,
) -> Result<(PredictionModel, int), DecodeError> {
    if code == 0 {
        if pos + width > bits.len() {
            Err(DecodeError::UnexpectedEndOfInput)
        } else {
            Ok(
                (
                    PredictionModel::Constant { value: signed_field(bits, pos, width as int) },
                    pos + width,
                ),
            )
        }
    } else if code == 1 {
        if pos + width * block_size > bits.len() {
            Err(DecodeError::UnexpectedEndOfInput)
        } else {
            Ok(
                (
                    PredictionModel::Verbatim {
                        samples: signed_run(bits, pos, width as int, block_size),
                    },
                    pos + width * block_size,
                ),
            )
        }
    } else if code < 32 {
        fixed_at(bits, pos, (code - 8) as nat, width, block_size)
    } else {
        lpc_at(bits, pos, (code - 31) as nat, width, block_size)
    }
}

/// The subframe at bit `pos` of a channel that is `width` bits wide, in a
/// block of `block_size` samples, with the position after it.
///
/// It opens with a reserved bit, which is zero, and six bits of type code.
/// The count of wasted bits follows; the samples are stored that much
/// narrower, and at least one bit must be left to them.
#[verifier::opaque]
pub open spec fn subframe_at(bits: Seq<bool>, pos: int, width: nat, block_size: nat) -> Result<
    (SubframeModel, int),
    DecodeError,
> {
    let code = field(bits, pos + 1, 6);
    if pos + 7 > bits.len() {
        Err(DecodeError::UnexpectedEndOfInput)
    } else if field(bits, pos, 1) != 0 {
        Err(DecodeError::ReservedFieldUsed)
    } else if !type_in_use(code) {
        Err(DecodeError::InvalidSubframeType)
    } else {
        match wasted_at(bits, pos + 7) {
            Err(e) => Err(e),
            Ok((wasted, body)) => if wasted >= width {
                Err(DecodeError::ArithmeticOverflow)
            } else {
                match prediction_at(bits, body, code, (width - wasted) as nat, block_size) {
                    Err(e) => Err(e),
                    Ok((prediction, end)) => Ok(
                        (SubframeModel { prediction, wasted_bits: wasted }, end),
                    ),
                }
            },
        }
    }
}

/// Samples with their wasted bits put back: each times `2^wasted`.
pub open spec fn with_wasted_bits(samples: Seq<int>, wasted: nat) -> Seq<int> {
    Seq::new(samples.len(), |i: int| samples[i] * pow2(wasted))
}

/// The samples of a subframe before the wasted bits are put back. Each must
/// fit the narrower width.
pub open spec fn plain_samples(prediction: PredictionModel, width: nat, block_size: nat)
    -> Result<Seq<int>, DecodeError> {
    match prediction {
        PredictionModel::Constant { value } => if fits_signed(value, width) {
            Ok(Seq::new(block_size, |i: int| value))
        } else {
            Err(DecodeError::ArithmeticOverflow)
        },
        PredictionModel::Verbatim { samples } => if all_fit(samples, width) {
            Ok(samples)
        } else {
            Err(DecodeError::ArithmeticOverflow)
        },
        PredictionModel::Fixed { order, warmup, residual } => fixed_restore(
            order,
            warmup,
            residual,
            width,
        ),
        PredictionModel::Lpc {
            order,
            precision,
            shift,
            coefficients,
            warmup,
            residual,
        } => lpc_restore(coefficients, shift, warmup, residual, width),
    }
}

/// The samples of a channel that is `width` bits wide.
#[verifier::opaque]
pub open spec fn subframe_samples(subframe: SubframeModel, width: nat, block_size: nat) -> Result<
    Seq<int>,
    DecodeError,
> {
    match plain_samples(
        subframe.prediction,
        (width - subframe.wasted_bits) as nat,
        block_size,
    ) {
        Err(e) => Err(e),
        Ok(samples) => Ok(with_wasted_bits(samples, subframe.wasted_bits)),
    }
}

/// Reads the count of wasted bits of a subframe.
pub fn find_wasted_bits(cursor: &mut BitCursor) -> (wasted: Result<u32, DecodeError>)
    requires
        old(cursor).wf(),
    ensures
        final(cursor).wf(),
        final(cursor).bytes() == old(cursor).bytes(),
        old(cursor).position() <= final(cursor).position(),
        match wasted {
            Ok(k) => wasted_at(old(cursor).bits(), old(cursor).position()) == Ok::<
                (nat, int),
                DecodeError,
            >((k as nat, final(cursor).position())),
            Err(e) => wasted_at(old(cursor).bits(), old(cursor).position()) == Err::<
                (nat, int),
                DecodeError,
            >(e),
        },
{
    let flag = cursor.read_bits(1)?;
    if flag == 0 {
        return Ok(0);
    }
    proof {
        lemma_field_bound(old(cursor).bits(), old(cursor).position(), 1);
        lemma2_to64();
    }
    let run = cursor.read_unary()?;
    Ok(run + 1)
}

/// Reads the one sample of a constant subframe, which is `width` bits wide.
pub fn constant_value(cursor: &mut BitCursor, width: u32) -> (value: Result<i64, DecodeError>)
    requires
        old(cursor).wf(),
        1 <= width <= 64,
    ensures
        final(cursor).wf(),
        final(cursor).bytes() == old(cursor).bytes(),
        old(cursor).position() <= final(cursor).position(),
        match value {
            Ok(v) => {
                &&& old(cursor).position() + width <= old(cursor).bits().len()
                &&& v == signed_field(old(cursor).bits(), old(cursor).position(), width as int)
                &&& final(cursor).position() == old(cursor).position() + width
            },
            Err(e) => {
                &&& e == DecodeError::UnexpectedEndOfInput
                &&& old(cursor).position() + width > old(cursor).bits().len()
            },
        },
{
    cursor.read_signed(width)
}

/// Reads the samples of a verbatim subframe: `block_size` samples of `width`
/// bits each.
pub fn verbatim(cursor: &mut BitCursor, width: u32, block_size: u32) -> (samples: Result<
    Vec<i64>,
    DecodeError,
>)
    requires
        old(cursor).wf(),
        1 <= width <= 64,
    ensures
        final(cursor).wf(),
        final(cursor).bytes() == old(cursor).bytes(),
        old(cursor).position() <= final(cursor).position(),
        match samples {
            Ok(v) => {
                &&& old(cursor).position() + width * block_size <= old(cursor).bits().len()
                &&& ints(v@) == signed_run(
                    old(cursor).bits(),
                    old(cursor).position(),
                    width as int,
                    block_size as nat,
                )
                &&& final(cursor).position() == old(cursor).position() + width * block_size
            },
            Err(e) => {
                &&& e == DecodeError::UnexpectedEndOfInput
                &&& old(cursor).position() + width * block_size > old(cursor).bits().len()
            },
        },
{
    cursor.read_signed_run(width, block_size)
}

/// Reads the body of a subframe with a fixed predictor.
fn read_fixed(cursor: &mut BitCursor, order: u8, width: u32, block_size: u32) -> (prediction:
    Result<Prediction, DecodeError>)
    requires
        old(cursor).wf(),
        order <= 4,
        1 <= width <= 64,
    ensures
        final(cursor).wf(),
        final(cursor).bytes() == old(cursor).bytes(),
        old(cursor).position() <= final(cursor).position(),
        match prediction {
            Ok(p) => {
                &&& fixed_at(
                    old(cursor).bits(),
                    old(cursor).position(),
                    order as nat,
                    width as nat,
                    block_size as nat,
                ) == Ok::<(PredictionModel, int), DecodeError>((p@, final(cursor).position()))
                &&& (SubframeModel { prediction: p@, wasted_bits: 0 }).well_formed(
                    1,
                    block_size as nat,
                )
            },
            Err(e) => fixed_at(
                old(cursor).bits(),
                old(cursor).position(),
                order as nat,
                width as nat,
                block_size as nat,
            ) == Err::<(PredictionModel, int), DecodeError>(e),
        },
{
    let warmup = cursor.read_signed_run(width, order as u32)?;
    let residual = decode_rice_residual(cursor, order, block_size)?;
    assert(warmup@.len() == ints(warmup@).len());
    Ok(Prediction::Fixed { order, warmup, residual })
}

/// A number that fits a narrow width fits every wider one.
proof fn lemma_fits_wider(value: int, narrow: nat, wide: nat)
    requires
        fits_signed(value, narrow),
        narrow <= wide,
    ensures
        fits_signed(value, wide),
{
    if narrow < wide {
        lemma_pow2_strictly_increases((narrow - 1) as nat, (wide - 1) as nat);
    }
}

/// Reads the body of a subframe with a linear predictor.
fn read_lpc(cursor: &mut BitCursor, order: u8, width: u32, block_size: u32) -> (prediction:
    Result<Prediction, DecodeError>)
    requires
        old(cursor).wf(),
        1 <= order <= 32,
        1 <= width <= 64,
    ensures
        final(cursor).wf(),
        final(cursor).bytes() == old(cursor).bytes(),
        old(cursor).position() <= final(cursor).position(),
        match prediction {
            Ok(p) => {
                &&& lpc_at(
                    old(cursor).bits(),
                    old(cursor).position(),
                    order as nat,
                    width as nat,
                    block_size as nat,
                ) == Ok::<(PredictionModel, int), DecodeError>((p@, final(cursor).position()))
                &&& (SubframeModel { prediction: p@, wasted_bits: 0 }).well_formed(
                    1,
                    block_size as nat,
                )
            },
            Err(e) => lpc_at(
                old(cursor).bits(),
                old(cursor).position(),
                order as nat,
                width as nat,
                block_size as nat,
            ) == Err::<(PredictionModel, int), DecodeError>(e),
        },
{
    let ghost bits = cursor.bits();
    let ghost pos = cursor.position();
    let code = cursor.read_bits(4)?;
    proof {
        lemma_field_bound(bits, pos, 4);
        lemma2_to64();
    }
    if code == 15 {
        return Err(DecodeError::ReservedFieldUsed);
    }
    let precision: u32 = code as u32 + 1;
    let shift = cursor.read_signed(5)?;
    proof {
        lemma_field_bound(bits, pos + 4, 5);
        lemma_twos_complement_fits(field(bits, pos + 4, 5), 5);
    }
    let coefficients = cursor.read_signed_run(precision, order as u32)?;
    let warmup = cursor.read_signed_run(width, order as u32)?;
    let residual = decode_rice_residual(cursor, order, block_size)?;
    proof {
        assert(warmup@.len() == ints(warmup@).len());
        assert(coefficients@.len() == ints(coefficients@).len());
        assert forall|i: int| 0 <= i < ints(coefficients@).len() implies fits_signed(
            #[trigger] ints(coefficients@)[i],
            15,
        ) by {
            let raw = field(bits, pos + 9 + i * precision, precision as int);
            assert(precision * order >= i * precision + precision) by (nonlinear_arith)
                requires
                    0 <= i < order,
            ;
            lemma_field_bound(bits, pos + 9 + i * precision, precision as int);
            lemma_twos_complement_fits(raw, precision as nat);
            lemma_fits_wider(ints(coefficients@)[i], precision as nat, 15);
        }
    }
    Ok(
        Prediction::Lpc {
            order,
            precision: precision as u8,
            shift: shift as i8,
            coefficients,
            warmup,
            residual,
        },
    )
}

/// Puts the wasted bits of a subframe back into its samples.
fn restore_wasted_bits(samples: Vec<i64>, width: u32, wasted: u32) -> (restored: Vec<i64>)
    requires
        1 <= width,
        width + wasted <= 33,
        all_fit(ints(samples@), width as nat),
    ensures
        ints(restored@) == with_wasted_bits(ints(samples@), wasted as nat),
        restored@.len() == samples@.len(),
{
    let scale = power_of_two(wasted) as i64;
    let mut out: Vec<i64> = Vec::new();
    let mut i: usize = 0;
    proof {
        lemma2_to64();
        lemma_pow2_adds((width - 1) as nat, wasted as nat);
        lemma_pow2_pos(wasted as nat);
        lemma_pow2_pos((width - 1) as nat);
        if width + wasted < 33 {
            lemma_pow2_strictly_increases((width + wasted - 1) as nat, 32);
        }
        if wasted < 32 {
            lemma_pow2_strictly_increases(wasted as nat, 32);
        }
    }
    while i < samples.len()
        invariant
            i <= samples@.len(),
            1 <= width,
            scale == pow2(wasted as nat),
            scale > 0,
            pow2((width - 1) as nat) * pow2(wasted as nat) <= 0x1_0000_0000,
            all_fit(ints(samples@), width as nat),
            out@.len() == i,
            forall|j: int| 0 <= j < i ==> #[trigger] out@[j] == samples@[j] * pow2(wasted as nat),
        decreases samples@.len() - i,
    {
        let value = samples[i];
        assert(fits_signed(ints(samples@)[i as int], width as nat));
        assert(-0x1_0000_0000 <= value * scale <= 0x1_0000_0000) by (nonlinear_arith)
            requires
                -(pow2((width - 1) as nat) as int) <= value < pow2((width - 1) as nat),
                scale == pow2(wasted as nat),
                scale > 0,
                pow2((width - 1) as nat) * pow2(wasted as nat) <= 0x1_0000_0000,
        ;
        out.push(value * scale);
        i = i + 1;
    }
    assert(ints(out@) =~= with_wasted_bits(ints(samples@), wasted as nat));
    out
}

impl Subframe {
    /// Reads the subframe of a channel that is `width` bits wide, in a block
    /// of `block_size` samples.
    pub fn decode(cursor: &mut BitCursor, width: u32, block_size: u32) -> (subframe: Result<
        Subframe,
        DecodeError,
    >)
        requires
            old(cursor).wf(),
            1 <= width <= 64,
        ensures
            final(cursor).wf(),
            final(cursor).bytes() == old(cursor).bytes(),
        old(cursor).position() <= final(cursor).position(),
            match subframe {
                Ok(s) => {
                    &&& subframe_at(
                        old(cursor).bits(),
                        old(cursor).position(),
                        width as nat,
                        block_size as nat,
                    ) == Ok::<(SubframeModel, int), DecodeError>((s@, final(cursor).position()))
                    &&& s@.well_formed(width as nat, block_size as nat)
                },
                Err(e) => subframe_at(
                    old(cursor).bits(),
                    old(cursor).position(),
                    width as nat,
                    block_size as nat,
                ) == Err::<(SubframeModel, int), DecodeError>(e),
            },
    {
        proof {
            reveal(subframe_at);
        }
        let ghost bits = cursor.bits();
        let ghost pos = cursor.position();
        let head = cursor.read_bits(7)?;
        proof {
            lemma_field_split(bits, pos, 1, 6);
            lemma_field_bound(bits, pos, 1);
            lemma_field_bound(bits, pos + 1, 6);
            lemma2_to64();
        }
        if head / 64 != 0 {
            return Err(DecodeError::ReservedFieldUsed);
        }
        let code: u8 = (head % 64) as u8;
        if !(code <= 1 || (8 <= code && code <= 12) || 32 <= code) {
            return Err(DecodeError::InvalidSubframeType);
        }
        let wasted_bits = find_wasted_bits(cursor)?;
        if wasted_bits >= width {
            return Err(DecodeError::ArithmeticOverflow);
        }
        let narrow = width - wasted_bits;
        let prediction = if code == 0 {
            Prediction::Constant { value: constant_value(cursor, narrow)? }
        } else if code == 1 {
            let samples = verbatim(cursor, narrow, block_size)?;
            assert(samples@.len() == ints(samples@).len());
            Prediction::Verbatim { samples }
        } else if code < 32 {
            read_fixed(cursor, code - 8, narrow, block_size)?
        } else {
            read_lpc(cursor, code - 31, narrow, block_size)?
        };
        Ok(Subframe { prediction, wasted_bits })
    }

    /// Restores the samples of the subframe of a channel that is `width` bits
    /// wide, or fails where one of them does not fit its width.
    pub fn samples(&self, width: u32, block_size: u32) -> (samples: Result<Vec<i64>, DecodeError>)
        requires
            1 <= width <= 33,
            self@.well_formed(width as nat, block_size as nat),
        ensures
            match samples {
                Ok(v) => v@.len() == block_size && subframe_samples(
                    self@,
                    width as nat,
                    block_size as nat,
                ) == Ok::<Seq<int>, DecodeError>(ints(v@)),
                Err(e) => subframe_samples(self@, width as nat, block_size as nat) == Err::<
                    Seq<int>,
                    DecodeError,
                >(e),
            },
    {
        proof {
            reveal(subframe_samples);
        }
        let narrow = width - self.wasted_bits;
        let plain: Vec<i64> = match &self.prediction {
            Prediction::Constant { value } => {
                let (low, high) = signed_bounds(narrow);
                if *value < low || *value > high {
                    return Err(DecodeError::ArithmeticOverflow);
                }
                let mut out: Vec<i64> = Vec::new();
                let mut i: u32 = 0;
                while i < block_size
                    invariant
                        i <= block_size,
                        out@.len() == i,
                        forall|j: int| 0 <= j < i ==> #[trigger] out@[j] == *value,
                    decreases block_size - i,
                {
                    out.push(*value);
                    i = i + 1;
                }
                assert(ints(out@) =~= Seq::new(block_size as nat, |i: int| *value as int));
                out
            },
            Prediction::Verbatim { samples } => {
                match checked_copy(samples, narrow) {
                    Some(copy) => copy,
                    None => { return Err(DecodeError::ArithmeticOverflow); },
                }
            },
            Prediction::Fixed { order, warmup, residual } => {
                proof {
                    lemma_fixed_samples_grow(
                        *order as nat,
                        ints(warmup@),
                        ints(residual@),
                        block_size as nat,
                        block_size as nat,
                    );
                }
                let out = fixed_prediction(*order, narrow, warmup.as_slice(), residual.as_slice())?;
                assert(out@.len() == ints(out@).len());
                out
            },
            Prediction::Lpc { order, precision, shift, coefficients, warmup, residual } => {
                proof {
                    lemma_lpc_samples_grow(
                        ints(coefficients@),
                        *shift as int,
                        ints(warmup@),
                        ints(residual@),
                        block_size as nat,
                        block_size as nat,
                    );
                }
                let out = lpc(
                    narrow,
                    *shift,
                    coefficients.as_slice(),
                    warmup.as_slice(),
                    residual.as_slice(),
                )?;
                assert(out@.len() == ints(out@).len());
                out
            },
        };
        Ok(restore_wasted_bits(plain, narrow, self.wasted_bits))
    }
}

} // verus!
