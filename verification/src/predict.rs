use vstd::prelude::*;
use vstd::arithmetic::power2::{pow2, lemma2_to64, lemma_pow2_pos, lemma_pow2_strictly_increases};
use vstd::arithmetic::div_mod::{lemma_fundamental_div_mod, lemma_fundamental_div_mod_converse};
use crate::bits::{all_fit, fits_signed, ints, power_of_two, signed_bounds};
use crate::error::DecodeError;

verus! {

/// What the fixed predictor of the given order expects for sample `n`, given
/// the samples before it.
pub open spec fn fixed_predict(order: nat, s: Seq<int>, n: int) -> int {
    if order == 0 {
        0
    } else if order == 1 {
        s[n - 1]
    } else if order == 2 {
        2 * s[n - 1] - s[n - 2]
    } else if order == 3 {
        3 * s[n - 1] - 3 * s[n - 2] + s[n - 3]
    } else {
        4 * s[n - 1] - 6 * s[n - 2] + 4 * s[n - 3] - s[n - 4]
    }
}

/// The first `n` samples of a subframe with a fixed predictor: the warm-up
/// samples as they are, and then each prediction plus its residual.
pub open spec fn fixed_samples(order: nat, warmup: Seq<int>, residual: Seq<int>, n: nat) -> Seq<
    int,
>
    decreases n,
{
    if n == 0 {
        Seq::empty()
    } else {
        let before = fixed_samples(order, warmup, residual, (n - 1) as nat);
        before.push(
            if n - 1 < order {
                warmup[n - 1]
            } else {
                fixed_predict(order, before, n - 1) + residual[n - 1 - order]
            },
        )
    }
}

/// The samples of a subframe with a fixed predictor, which must all fit the
/// width of the subframe.
pub open spec fn fixed_restore(order: nat, warmup: Seq<int>, residual: Seq<int>, width: nat)
    -> Result<Seq<int>, DecodeError> {
    let samples = fixed_samples(order, warmup, residual, order + residual.len());
    if all_fit(samples, width) {
        Ok(samples)
    } else {
        Err(DecodeError::ArithmeticOverflow)
    }
}

/// The sum of the first `terms` products of a linear predictor for sample
/// `n`: coefficient `i` times the sample `i + 1` places back.
pub open spec fn lpc_sum(coefficients: Seq<int>, s: Seq<int>, n: int, terms: nat) -> int
    decreases terms,
{
    if terms == 0 {
        0
    } else {
        lpc_sum(coefficients, s, n, (terms - 1) as nat) + coefficients[terms - 1] * s[n - terms]
    }
}

/// A sum shifted right arithmetically by `shift` bits; a negative `shift`
/// shifts left.
pub open spec fn shifted(sum: int, shift: int) -> int {
    if shift >= 0 {
        sum / pow2(shift as nat) as int
    } else {
        sum * pow2((-shift) as nat)
    }
}

/// The first `n` samples of a subframe with a linear predictor, whose order
/// is the count of its coefficients.
pub open spec fn lpc_samples(
    coefficients: Seq<int>,
    shift: int,
    warmup: Seq<int>,
    residual: Seq<int>,
    n: nat,
) -> Seq<int>
    decreases n,
{
    if n == 0 {
        Seq::empty()
    } else {
        let before = lpc_samples(coefficients, shift, warmup, residual, (n - 1) as nat);
        before.push(
            if n - 1 < coefficients.len() {
                warmup[n - 1]
            } else {
                shifted(lpc_sum(coefficients, before, n - 1, coefficients.len()), shift)
                    + residual[n - 1 - coefficients.len()]
            },
        )
    }
}

/// The samples of a subframe with a linear predictor, which must all fit the
/// width of the subframe.
pub open spec fn lpc_restore(
    coefficients: Seq<int>,
    shift: int,
    warmup: Seq<int>,
    residual: Seq<int>,
    width: nat,
) -> Result<Seq<int>, DecodeError> {
    let samples = lpc_samples(
        coefficients,
        shift,
        warmup,
        residual,
        coefficients.len() + residual.len(),
    );
    if all_fit(samples, width) {
        Ok(samples)
    } else {
        Err(DecodeError::ArithmeticOverflow)
    }
}

/// The samples computed so far stay as they are when more are computed.
pub proof fn lemma_fixed_samples_grow(
    order: nat,
    warmup: Seq<int>,
    residual: Seq<int>,
    n: nat,
    m: nat,
)
    requires
        n <= m,
    ensures
        fixed_samples(order, warmup, residual, m).len() == m,
        forall|i: int|
            0 <= i < n ==> fixed_samples(order, warmup, residual, m)[i] == fixed_samples(
                order,
                warmup,
                residual,
                n,
            )[i],
    decreases m,
{
    if m > 0 {
        lemma_fixed_samples_grow(order, warmup, residual, (m - 1) as nat, (m - 1) as nat);
        if n < m {
            lemma_fixed_samples_grow(order, warmup, residual, n, (m - 1) as nat);
        }
    }
}

/// The samples computed so far stay as they are when more are computed.
pub proof fn lemma_lpc_samples_grow(
    coefficients: Seq<int>,
    shift: int,
    warmup: Seq<int>,
    residual: Seq<int>,
    n: nat,
    m: nat,
)
    requires
        n <= m,
    ensures
        lpc_samples(coefficients, shift, warmup, residual, m).len() == m,
        forall|i: int|
            0 <= i < n ==> lpc_samples(coefficients, shift, warmup, residual, m)[i] == lpc_samples(
                coefficients,
                shift,
                warmup,
                residual,
                n,
            )[i],
    decreases m,
{
    if m > 0 {
        lemma_lpc_samples_grow(
            coefficients,
            shift,
            warmup,
            residual,
            (m - 1) as nat,
            (m - 1) as nat,
        );
        if n < m {
            lemma_lpc_samples_grow(coefficients, shift, warmup, residual, n, (m - 1) as nat);
        }
    }
}

/// With the predictor of order 0, the samples are the residual itself.
pub proof fn lemma_fixed_order_zero_is_identity(residual: Seq<int>, n: nat)
    requires
        n <= residual.len(),
    ensures
        fixed_samples(0, Seq::empty(), residual, n) == residual.take(n as int),
    decreases n,
{
    if n > 0 {
        lemma_fixed_order_zero_is_identity(residual, (n - 1) as nat);
    }
    assert(fixed_samples(0, Seq::empty(), residual, n) =~= residual.take(n as int));
}

/// What the fixed predictor expects for sample `n` after the samples in
/// `earlier`, each of which fits 33 bits.
fn fixed_predicted(order: u8, earlier: &Vec<i64>, n: usize) -> (predicted: i64)
    requires
        order <= 4,
        order <= n,
        n <= earlier@.len(),
        forall|j: int|
            0 <= j < n ==> -0x1_0000_0000 <= #[trigger] earlier@[j] <= 0x1_0000_0000,
    ensures
        predicted == fixed_predict(order as nat, ints(earlier@), n as int),
        -0x10_0000_0000 <= predicted <= 0x10_0000_0000,
{
    if order == 0 {
        0
    } else if order == 1 {
        earlier[n - 1]
    } else if order == 2 {
        2 * earlier[n - 1] - earlier[n - 2]
    } else if order == 3 {
        3 * earlier[n - 1] - 3 * earlier[n - 2] + earlier[n - 3]
    } else {
        4 * earlier[n - 1] - 6 * earlier[n - 2] + 4 * earlier[n - 3] - earlier[n - 4]
    }
}

/// Applies the fixed predictor of the given order: returns the samples of
/// the subframe, or fails where one of them does not fit `width` bits.
pub fn fixed_prediction(order: u8, width: u32, warmup: &[i64], residual: &[i64]) -> (samples:
    Result<Vec<i64>, DecodeError>)
    requires
        order <= 4,
        warmup@.len() == order,
        1 <= width <= 33,
        order + residual@.len() <= usize::MAX,
    ensures
        match samples {
            Ok(v) => fixed_restore(order as nat, ints(warmup@), ints(residual@), width as nat)
                == Ok::<Seq<int>, DecodeError>(ints(v@)),
            Err(e) => fixed_restore(order as nat, ints(warmup@), ints(residual@), width as nat)
                == Err::<Seq<int>, DecodeError>(e),
        },
{
    let ghost w = ints(warmup@);
    let ghost r = ints(residual@);
    let total: usize = order as usize + residual.len();
    let (low, high) = signed_bounds(width);
    let mut out: Vec<i64> = Vec::new();
    let mut n: usize = 0;
    assert(ints(out@) =~= fixed_samples(order as nat, w, r, 0));
    while n < total
        invariant
            order <= 4,
            warmup@.len() == order,
            total == order + residual@.len(),
            w == ints(warmup@),
            r == ints(residual@),
            1 <= width <= 33,
            low == -(pow2((width - 1) as nat) as int),
            high == pow2((width - 1) as nat) - 1,
            -0x1_0000_0000 <= low < 0,
            0 <= high < 0x1_0000_0000,
            n <= total,
            out@.len() == n,
            ints(out@) == fixed_samples(order as nat, w, r, n as nat),
            forall|j: int| 0 <= j < n ==> low <= #[trigger] out@[j] <= high,
        decreases total - n,
    {
        let ghost before = ints(out@);
        let value: i128 = if n < order as usize {
            warmup[n] as i128
        } else {
            let predicted = fixed_predicted(order, &out, n);
            predicted as i128 + residual[n - order as usize] as i128
        };
        proof {
            lemma_fixed_samples_grow(order as nat, w, r, (n + 1) as nat, total as nat);
            assert(fixed_samples(order as nat, w, r, (n + 1) as nat) == before.push(value as int));
            assert(fixed_samples(order as nat, w, r, total as nat)[n as int] == value);
        }
        if value < low as i128 || value > high as i128 {
            return Err(DecodeError::ArithmeticOverflow);
        }
        out.push(value as i64);
        assert(ints(out@) =~= before.push(value as int));
        n = n + 1;
    }
    assert forall|i: int| 0 <= i < ints(out@).len() implies fits_signed(
        #[trigger] ints(out@)[i],
        width as nat,
    ) by {
        assert(low <= out@[i] <= high);
    }
    Ok(out)
}

/// A subframe with the predictor of order 0 restores to its residual, where
/// the residual fits the width of the subframe.
pub proof fn lemma_fixed_order_zero_restores_residual(residual: Seq<int>, width: nat)
    ensures
        fixed_restore(0, Seq::empty(), residual, width) == if all_fit(residual, width) {
            Ok::<Seq<int>, DecodeError>(residual)
        } else {
            Err::<Seq<int>, DecodeError>(DecodeError::ArithmeticOverflow)
        },
{
    lemma_fixed_order_zero_is_identity(residual, residual.len());
    assert(residual.take(residual.len() as int) =~= residual);
}

/// Division that rounds down, for a divisor above zero.
fn floor_div(x: i64, d: i64) -> (q: i64)
    requires
        d > 0,
    ensures
        q == x as int / d as int,
{
    if x >= 0 {
        x / d
    } else {
        let y: i64 = -(x + 1);
        let below: i64 = y / d;
        proof {
            let rest = y as int % d as int;
            lemma_fundamental_div_mod(y as int, d as int);
            assert((-below - 1) * d + (d - rest - 1) == x) by (nonlinear_arith)
                requires
                    y == d * below + rest,
                    y == -(x + 1),
            ;
            lemma_fundamental_div_mod_converse(x as int, d as int, -below - 1, d - rest - 1);
        }
        -below - 1
    }
}

/// Applies a linear predictor: returns the samples of the subframe, or fails
/// where one of them does not fit `width` bits. The coefficients are at most
/// 32 numbers of at most 15 bits, so that their sum of products fits 64 bits.
pub fn lpc(
    width: u32,
    shift: i8,
    coefficients: &[i64],
    warmup: &[i64],
    residual: &[i64],
) -> (samples: Result<Vec<i64>, DecodeError>)
    requires
        coefficients@.len() <= 32,
        all_fit(ints(coefficients@), 15),
        warmup@.len() == coefficients@.len(),
        -16 <= shift <= 15,
        1 <= width <= 33,
        coefficients@.len() + residual@.len() <= usize::MAX,
    ensures
        match samples {
            Ok(v) => lpc_restore(
                ints(coefficients@),
                shift as int,
                ints(warmup@),
                ints(residual@),
                width as nat,
            ) == Ok::<Seq<int>, DecodeError>(ints(v@)),
            Err(e) => lpc_restore(
                ints(coefficients@),
                shift as int,
                ints(warmup@),
                ints(residual@),
                width as nat,
            ) == Err::<Seq<int>, DecodeError>(e),
        },
{
    let ghost c = ints(coefficients@);
    let ghost w = ints(warmup@);
    let ghost r = ints(residual@);
    let order: usize = coefficients.len();
    let total: usize = order + residual.len();
    let (low, high) = signed_bounds(width);
    let mut out: Vec<i64> = Vec::new();
    let mut n: usize = 0;
    assert(ints(out@) =~= lpc_samples(c, shift as int, w, r, 0));
    proof {
        lemma2_to64();
    }
    while n < total
        invariant
            order == coefficients@.len(),
            order <= 32,
            all_fit(c, 15),
            pow2(14) == 0x4000,
            warmup@.len() == order,
            total == order + residual@.len(),
            c == ints(coefficients@),
            w == ints(warmup@),
            r == ints(residual@),
            -16 <= shift <= 15,
            1 <= width <= 33,
            low == -(pow2((width - 1) as nat) as int),
            high == pow2((width - 1) as nat) - 1,
            -0x1_0000_0000 <= low < 0,
            0 <= high < 0x1_0000_0000,
            n <= total,
            out@.len() == n,
            ints(out@) == lpc_samples(c, shift as int, w, r, n as nat),
            forall|j: int| 0 <= j < n ==> low <= #[trigger] out@[j] <= high,
        decreases total - n,
    {
        let ghost before = ints(out@);
        let value: i128 = if n < order {
            warmup[n] as i128
        } else {
            let mut sum: i64 = 0;
            let mut t: usize = 0;
            while t < order
                invariant
                    order == coefficients@.len(),
                    order <= 32,
                    order <= n,
                    out@.len() == n,
                    c == ints(coefficients@),
                    before == ints(out@),
                    all_fit(c, 15),
                    pow2(14) == 0x4000,
                    -0x1_0000_0000 <= low < 0,
                    0 <= high < 0x1_0000_0000,
                    forall|j: int| 0 <= j < n ==> low <= #[trigger] out@[j] <= high,
                    t <= order,
                    sum == lpc_sum(c, before, n as int, t as nat),
                    -0x4000_0000_0000 * t <= sum <= 0x4000_0000_0000 * t,
                decreases order - t,
            {
                let a: i64 = coefficients[t];
                let b: i64 = out[n - 1 - t];
                assert(fits_signed(c[t as int], 15));
                assert(-0x4000_0000_0000 <= a * b <= 0x4000_0000_0000) by (nonlinear_arith)
                    requires
                        -0x4000 <= a <= 0x4000,
                        -0x1_0000_0000 <= b <= 0x1_0000_0000,
                ;
                sum = sum + a * b;
                t = t + 1;
            }
            let predicted: i128 = if shift >= 0 {
                let divisor = power_of_two(shift as u32);
                proof {
                    lemma2_to64();
                    lemma_pow2_pos(shift as nat);
                    lemma_pow2_strictly_increases(shift as nat, 16);
                }
                floor_div(sum, divisor as i64) as i128
            } else {
                let scale = power_of_two((-shift) as u32);
                proof {
                    lemma2_to64();
                    lemma_pow2_pos((-shift) as nat);
                    if shift > -16 {
                        lemma_pow2_strictly_increases((-shift) as nat, 16);
                    }
                }
                assert(-0x8_0000_0000_0000 * 0x1_0000 <= sum * scale <= 0x8_0000_0000_0000
                    * 0x1_0000) by (nonlinear_arith)
                    requires
                        -0x8_0000_0000_0000 <= sum <= 0x8_0000_0000_0000,
                        0 < scale <= 0x1_0000,
                ;
                (sum as i128) * (scale as i128)
            };
            assert(predicted == shifted(lpc_sum(c, before, n as int, order as nat), shift as int));
            predicted + residual[n - order] as i128
        };
        proof {
            lemma_lpc_samples_grow(c, shift as int, w, r, (n + 1) as nat, total as nat);
            assert(lpc_samples(c, shift as int, w, r, (n + 1) as nat) == before.push(value as int));
            assert(lpc_samples(c, shift as int, w, r, total as nat)[n as int] == value);
        }
        if value < low as i128 || value > high as i128 {
            return Err(DecodeError::ArithmeticOverflow);
        }
        out.push(value as i64);
        assert(ints(out@) =~= before.push(value as int));
        n = n + 1;
    }
    assert forall|i: int| 0 <= i < ints(out@).len() implies fits_signed(
        #[trigger] ints(out@)[i],
        width as nat,
    ) by {
        assert(low <= out@[i] <= high);
    }
    Ok(out)
}

} // verus!
