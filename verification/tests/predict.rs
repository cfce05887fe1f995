use flac_decoder::error::DecodeError;
use flac_decoder::predict::{fixed_prediction, lpc};

#[test]
fn order_zero_hands_the_residual_through() {
    let residual = [5i64, -7, 0, 32767, -32768];
    assert_eq!(fixed_prediction(0, 16, &[], &residual), Ok(residual.to_vec()));
    assert_eq!(fixed_prediction(0, 16, &[], &[]), Ok(vec![]));
}

#[test]
fn order_one_repeats_the_last_sample() {
    assert_eq!(fixed_prediction(1, 16, &[10], &[0, 1, -3, 0]), Ok(vec![10, 10, 11, 8, 8]));
}

#[test]
fn order_two_continues_the_line() {
    assert_eq!(fixed_prediction(2, 16, &[1, 3], &[0, 0, 1, -2]), Ok(vec![1, 3, 5, 7, 10, 11]));
}

#[test]
fn order_three_continues_the_parabola() {
    assert_eq!(fixed_prediction(3, 16, &[0, 1, 4], &[0, 0, 0, 5]), Ok(vec![0, 1, 4, 9, 16, 25, 41]));
}

#[test]
fn order_four_continues_the_cubic() {
    assert_eq!(
        fixed_prediction(4, 16, &[0, 1, 8, 27], &[0, 0, -1, 0]),
        Ok(vec![0, 1, 8, 27, 64, 125, 215, 339])
    );
}

#[test]
fn a_sample_beyond_the_width_is_an_overflow() {
    assert_eq!(fixed_prediction(0, 8, &[], &[127]), Ok(vec![127]));
    assert_eq!(fixed_prediction(0, 8, &[], &[128]), Err(DecodeError::ArithmeticOverflow));
    assert_eq!(fixed_prediction(0, 8, &[], &[-128]), Ok(vec![-128]));
    assert_eq!(fixed_prediction(0, 8, &[], &[-129]), Err(DecodeError::ArithmeticOverflow));
    assert_eq!(fixed_prediction(1, 8, &[200], &[0]), Err(DecodeError::ArithmeticOverflow));
    assert_eq!(fixed_prediction(2, 8, &[0, 100], &[0]), Err(DecodeError::ArithmeticOverflow));
    assert_eq!(
        fixed_prediction(1, 33, &[0], &[i64::MAX]),
        Err(DecodeError::ArithmeticOverflow)
    );
    assert_eq!(
        fixed_prediction(1, 33, &[-1], &[i64::MIN]),
        Err(DecodeError::ArithmeticOverflow)
    );
    assert_eq!(
        fixed_prediction(1, 33, &[(1 << 32) - 1], &[0, -(1 << 33) + 1]),
        Ok(vec![(1 << 32) - 1, (1 << 32) - 1, -(1 << 32)])
    );
}

#[test]
fn a_linear_predictor_sums_and_shifts() {
    assert_eq!(lpc(16, 0, &[2, -1], &[1, 3], &[0, 0, 1]), Ok(vec![1, 3, 5, 7, 10]));
    assert_eq!(lpc(16, 1, &[3], &[5], &[0, 0, 0]), Ok(vec![5, 7, 10, 15]));
    assert_eq!(lpc(16, 2, &[7, -3], &[10, -20], &[1, 1]), Ok(vec![10, -20, -42, -58]));
}

#[test]
fn a_shift_rounds_towards_minus_infinity() {
    assert_eq!(lpc(16, 1, &[1], &[-1], &[0]), Ok(vec![-1, -1]));
    assert_eq!(lpc(16, 1, &[1], &[-3], &[0]), Ok(vec![-3, -2]));
    assert_eq!(lpc(16, 15, &[1], &[-1], &[0]), Ok(vec![-1, -1]));
    assert_eq!(lpc(16, 15, &[1], &[32767], &[0]), Ok(vec![32767, 0]));
}

#[test]
fn a_negative_shift_shifts_left() {
    assert_eq!(lpc(16, -1, &[1], &[3], &[0, 0]), Ok(vec![3, 6, 12]));
    assert_eq!(lpc(16, -16, &[1], &[1], &[0]), Err(DecodeError::ArithmeticOverflow));
    assert_eq!(lpc(33, -16, &[1], &[1], &[0]), Ok(vec![1, 65536]));
    assert_eq!(
        lpc(33, -16, &[16383; 32], &[(1 << 32) - 1; 32], &[0]),
        Err(DecodeError::ArithmeticOverflow)
    );
}

#[test]
fn the_largest_sum_of_products_is_held() {
    let coefficients = [-16384i64; 32];
    let warmup = [-(1i64 << 32); 32];
    assert_eq!(
        lpc(33, 15, &coefficients, &warmup, &[0]),
        Err(DecodeError::ArithmeticOverflow)
    );
    let predicted = (32i64 * 16384 * (1 << 32)) >> 15;
    assert_eq!(predicted, 1 << 36);
    let mut samples = warmup.to_vec();
    samples.push(5);
    assert_eq!(lpc(33, 15, &coefficients, &warmup, &[5 - predicted]), Ok(samples));
}

#[test]
fn no_coefficients_leave_the_residual() {
    assert_eq!(lpc(8, 3, &[], &[], &[1, -2, 3]), Ok(vec![1, -2, 3]));
    assert_eq!(lpc(8, 3, &[], &[], &[1, -200, 3]), Err(DecodeError::ArithmeticOverflow));
}
