//! Prediction row by row.

use oxideav_huffyuv::predictor::{
    paeth_median_u8, pred_gradient_inplace, pred_left_inplace, pred_median_inplace,
};

#[test]
fn left_prefix_sum_round_trip() {
    let mut row = [10u8, 0, 5, 0, 250];
    let left = pred_left_inplace(&mut row, 0);
    assert_eq!(row, [10, 10, 15, 15, 9]);
    assert_eq!(left, 9);
}

#[test]
fn gradient_zero_input_returns_register() {
    let top = [0u8; 4];
    let mut row = [0u8; 4];
    let left = pred_gradient_inplace(&mut row, &top, 7);
    assert_eq!(row, [7, 7, 7, 7]);
    assert_eq!(left, 7);
}

#[test]
fn gradient_symmetric_round_trip() {
    let top: [u8; 6] = [10, 20, 30, 40, 50, 60];
    let original: [u8; 6] = [12, 25, 33, 41, 49, 58];
    let prev_left: u8 = 5;

    let mut residuals = [0u8; 6];
    let mut left = prev_left;
    let mut top_left = 0u8;
    for x in 0..6 {
        let pred = left.wrapping_add(top[x]).wrapping_sub(top_left);
        residuals[x] = original[x].wrapping_sub(pred);
        top_left = top[x];
        left = original[x];
    }

    let mut row = residuals;
    let _ = pred_gradient_inplace(&mut row, &top, prev_left);
    assert_eq!(row, original);
}

#[test]
fn median_matches_paeth() {
    let top = [10u8, 20, 30];
    let mut row = [5u8, 0, 0];
    let left = pred_median_inplace(&mut row, &top, 0, 0);
    assert_eq!(row, [15, 20, 30]);
    assert_eq!(left, 30);
}

#[test]
fn median_wraps_in_u8_space() {
    assert_eq!(paeth_median_u8(210, 106, 41), 106);
}
