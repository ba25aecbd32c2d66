use hpvcd::dequant::{
    dequant_params, dequantize_into, dequantize_into_scalar, dequantize_scaled_into,
    dequantize_transform_skip_into, dequantize_transform_skip_into_scalar,
    dequantize_transform_skip_scaled_into, transform_skip_params,
    ScalingMatrix,
};

#[test]
fn transform_skip_4x4_8bit_qp22_known_values() {
    let mut levels = [0i32; 16];
    levels[0] = 1;
    levels[1] = -1;
    levels[2] = 2;
    levels[3] = -2;

    let mut out = [0i16; 16];
    dequantize_transform_skip_into(&levels, 4, 22, 8, &mut out);

    assert_eq!(out[0], 8);
    assert_eq!(out[1], -8);
    assert_eq!(out[2], 16);
    assert_eq!(out[3], -16);
    assert!(out[4..].iter().all(|&v| v == 0));
}

#[test]
fn transform_skip_is_dequant_plus_logical_inverse_skip() {
    let levels = [3, -2, 0, 1, -1, 0, 2, -3, 0, 4, -4, 0, 1, 0, -1, 2];
    let mut deq = [0i32; 16];
    let mut out = [0i32; 16];

    dequantize_into(&levels, 4, 18, 8, &mut deq);
    dequantize_transform_skip_into(&levels, 4, 18, 8, &mut out);

    let shift = 15 - 8 - 2;
    let add = 1 << (shift - 1);
    for (actual, &d) in out.iter().zip(deq.iter()) {
        assert_eq!(*actual, (d + add) >> shift);
    }
}

#[test]
fn scalar_dequant_matches_public_dispatch_i16() {
    let levels = [-12, 0, 7, 19, -31, 42, 3, -4, 5, -6, 100, -100, 1, 2, -3, 4];
    let params = dequant_params(4, 34, 8);
    let mut expected = [0i16; 16];
    let mut actual = [0i16; 16];

    dequantize_into_scalar(&levels, 4, params, &mut expected);
    dequantize_into(&levels, 4, 34, 8, &mut actual);

    assert_eq!(actual, expected);
}

#[test]
fn scalar_transform_skip_matches_public_dispatch_i32() {
    let levels = [-12, 0, 7, 19, -31, 42, 3, -4, 5, -6, 100, -100, 1, 2, -3, 4];
    let params = transform_skip_params(4, 34, 10);
    let mut expected = [0i32; 16];
    let mut actual = [0i32; 16];

    dequantize_transform_skip_into_scalar(&levels, 4, params, &mut expected);
    dequantize_transform_skip_into(&levels, 4, 34, 10, &mut actual);

    assert_eq!(actual, expected);
}

#[test]
fn dequant_10bit_accepts_qp_prime_zero() {
    let mut levels = [0i32; 16];
    levels[0] = 1;

    let mut out = [0i32; 16];
    dequantize_into(&levels, 4, 0, 10, &mut out);

    assert_eq!(out[0], 5);
    assert!(out[1..].iter().all(|&v| v == 0));
}

#[test]
fn transform_skip_10bit_accepts_qp_prime_zero() {
    let mut levels = [0i32; 16];
    levels[0] = 1;

    let mut out = [0i32; 16];
    dequantize_transform_skip_into(&levels, 4, 0, 10, &mut out);

    assert_eq!(out[0], 1);
    assert!(out[1..].iter().all(|&v| v == 0));
}

#[test]
fn scaled_dequant_flat_16_matches_default_dispatch() {
    let levels = [-12, 0, 7, 19, -31, 42, 3, -4, 5, -6, 100, -100, 1, 2, -3, 4];
    let coeffs = [16u8; 64];
    let scaling = ScalingMatrix::new(&coeffs, 16, 4, false);
    let mut expected = [0i16; 16];
    let mut actual = [0i16; 16];

    dequantize_into(&levels, 4, 34, 8, &mut expected);
    dequantize_scaled_into(&levels, 4, 34, 8, Some(scaling), &mut actual);

    assert_eq!(actual, expected);
}

#[test]
fn scaled_dequant_uses_per_coefficient_matrix() {
    let mut levels = [0i32; 16];
    levels[0] = 1;
    levels[5] = 1;
    let mut coeffs = [16u8; 64];
    coeffs[0] = 32;
    coeffs[5] = 8;
    let scaling = ScalingMatrix::new(&coeffs, 16, 4, false);
    let mut out = [0i32; 16];

    dequantize_scaled_into(&levels, 4, 0, 8, Some(scaling), &mut out);

    assert_eq!(out[0], 40);
    assert_eq!(out[5], 10);
    assert!(out.iter().enumerate().all(|(i, &v)| i == 0 || i == 5 || v == 0));
}

#[test]
fn scaled_dequant_16x16_replicates_8x8_and_uses_dc() {
    let mut levels = [0i32; 256];
    levels[0] = 1;
    levels[1] = 1;
    levels[2] = 1;
    let mut coeffs = [16u8; 64];
    coeffs[0] = 8;
    coeffs[1] = 32;
    let scaling = ScalingMatrix::new(&coeffs, 24, 16, false);
    let mut out = [0i32; 256];

    dequantize_scaled_into(&levels, 16, 0, 8, Some(scaling), &mut out);

    assert_eq!(out[0], 8);
    assert_eq!(out[1], 3);
    assert_eq!(out[2], 10);
}

#[test]
fn scaled_transform_skip_with_flat_weights_is_plain() {
    let levels = [-12, 0, 7, 19, -31, 42, 3, -4, 5, -6, 100, -100, 1, 2, -3, 4];
    let coeffs = [16u8; 64];
    let scaling = ScalingMatrix::new(&coeffs, 16, 4, false);
    let (mut plain, mut scaled, mut none) = ([0i32; 16], [0i32; 16], [0i32; 16]);
    dequantize_transform_skip_into(&levels, 4, 27, 8, &mut plain);
    dequantize_transform_skip_scaled_into(&levels, 4, 27, 8, Some(scaling), &mut scaled);
    dequantize_transform_skip_scaled_into(&levels, 4, 27, 8, None, &mut none);
    assert_eq!(plain, scaled);
    assert_eq!(plain, none);
}
