use hpvcd::deblock::{
    chroma_horizontal_plane, chroma_vertical_plane, luma_horizontal_plane, luma_vertical_plane,
    LumaDecision,
};
use hpvcd::dequant::{dequant_params, dequantize_into_scalar, dequantize_into, transform_skip_params, ScalingMatrix};
use hpvcd::dequant_narrow::{
    choose_width, dequant_sat_bounds, dequantize_clipped_into, dequantize_clipped_scaled_into,
    dequantize_clipped_transform_skip_into, dequantize_clipped_transform_skip_scaled_into, Width,
};
use hpvcd::reconstruct::{
    add_residual_into, can_reconstruct_full_block, has_full_dst, narrow_i32_to_i16, sample_max,
};
use hpvcd::sao::{
    apply_sao_band_offset_banded_inplace, apply_sao_band_offset_inplace, apply_sao_plane,
    apply_sao_plane_banded, EdgeBorder, Picture, Region, SaoParams,
};
use hpvcd::transform::{
    dct_coef_at, inv_transform_dst_into, inv_transform_dst_into16, inv_transform_into,
    inv_transform_into16,
};

/// Numbers between -bound and bound that look random.
fn noise(seed: u32, bound: i32) -> impl FnMut() -> i32 {
    let mut state = seed;
    move || {
        state = state.wrapping_mul(1664525).wrapping_add(1013904223);
        (state >> 8) as i32 % (2 * bound + 1) - bound
    }
}

const DST: [[i32; 4]; 4] = [[29, 55, 74, 84], [74, 74, 0, -74], [84, -29, -74, 55], [55, -84, 74, -29]];

/// The two-stage inverse transform by matrix products.
fn by_matrix(coeff: &[i32], n: usize, depth: u32, matrix: &dyn Fn(usize, usize) -> i32) -> Vec<i32> {
    let clip = |v: i32| v.clamp(-32768, 32767);
    let mut first = vec![0; n * n];
    for x in 0..n {
        for r in 0..n {
            let sum: i32 = (0..n).map(|k| matrix(k, r) * coeff[k * n + x]).sum();
            first[r * n + x] = clip((sum + 64) >> 7);
        }
    }
    let shift = 20 - depth;
    let mut out = vec![0; n * n];
    for r in 0..n {
        for x in 0..n {
            let sum: i32 = (0..n).map(|k| matrix(k, x) * first[r * n + k]).sum();
            out[r * n + x] = (sum + (1 << (shift - 1))) >> shift;
        }
    }
    out
}

#[test]
fn fast_transform_is_the_matrix_product() {
    let mut next = noise(7, 2000);
    for n in [4, 8, 16, 32] {
        for depth in [8u8, 10] {
            let coeff: Vec<i32> = (0..n * n).map(|_| next()).collect();
            let mut out = vec![0; n * n];
            inv_transform_into(&coeff, n, depth, n, &mut out);
            assert_eq!(out, by_matrix(&coeff, n, depth as u32, &|k, m| dct_coef_at(n, k, m)));
        }
        let coeff: Vec<i32> = (0..n * n).map(|_| next()).collect();
        let narrow: Vec<i16> = coeff.iter().map(|&c| c as i16).collect();
        let mut out = vec![0i16; n * n];
        inv_transform_into16(&narrow, n, 8, n, &mut out);
        let wide = by_matrix(&coeff, n, 8, &|k, m| dct_coef_at(n, k, m));
        assert!(out.iter().zip(&wide).all(|(&a, &b)| a as i32 == b));
    }
}

#[test]
fn sine_transform_is_the_matrix_product() {
    let mut next = noise(11, 3000);
    let coeff: Vec<i32> = (0..16).map(|_| next()).collect();
    let expected = by_matrix(&coeff, 4, 8, &|k, m| DST[k][m]);
    let mut out = vec![0; 16];
    inv_transform_dst_into(&coeff, 8, &mut out);
    assert_eq!(out, expected);
    let narrow: Vec<i16> = coeff.iter().map(|&c| c as i16).collect();
    let mut out = vec![0i16; 16];
    inv_transform_dst_into16(&narrow, 8, &mut out);
    assert!(out.iter().zip(&expected).all(|(&a, &b)| a as i32 == b));
}

#[test]
fn constant_coefficient_gives_a_flat_block() {
    let mut coeff = vec![0; 64];
    coeff[0] = 64;
    let mut out = vec![9; 70];
    inv_transform_into(&coeff, 8, 8, 1, &mut out);
    assert!(out[..64].iter().all(|&v| v == 1));
    assert!(out[64..].iter().all(|&v| v == 9));
    assert_eq!(dct_coef_at(32, 1, 0), 90);
    assert_eq!(dct_coef_at(4, 3, 0), 36);
    assert_eq!(dct_coef_at(8, 1, 7), -89);
}

#[test]
fn columns_of_zeros_may_be_skipped() {
    let mut next = noise(3, 500);
    let mut coeff = vec![0; 256];
    for r in 0..16 {
        for c in 0..5 {
            coeff[r * 16 + c] = next();
        }
    }
    let mut all = vec![0; 256];
    let mut some = vec![0; 256];
    inv_transform_into(&coeff, 16, 8, 16, &mut all);
    inv_transform_into(&coeff, 16, 8, 5, &mut some);
    assert_eq!(all, some);
    let mut zero = vec![1; 256];
    inv_transform_into(&vec![0; 256], 16, 8, 16, &mut zero);
    assert!(zero.iter().all(|&v| v == 0));
}

#[test]
fn levels_saturate_at_16_bits() {
    let levels: Vec<i32> = vec![i32::MAX, i32::MIN, 40000, -40000, 32767, -32768, 0, 1, 2, -1, 9, 8, 7, 6, 5, 4];
    let params = dequant_params(4, 51, 8);
    let mut out = [0i32; 16];
    dequantize_into_scalar(&levels, 4, params, &mut out);
    assert_eq!(out[..7], [32767, -32768, 32767, -32768, 32767, -32768, 0]);
    let mut narrow = [0i16; 16];
    let small: Vec<i32> = levels.iter().map(|l| l % 1000).collect();
    dequantize_into_scalar(&small, 4, params, &mut out);
    dequantize_clipped_into(&small, 4, params, 1000, &mut narrow);
    assert!(out.iter().zip(&narrow).all(|(&a, &b)| a == b as i32));
}

#[test]
fn clipped_kinds_agree_with_the_plain_ones_on_16_bit_levels() {
    let mut next = noise(5, 900);
    let levels: Vec<i32> = (0..16).map(|_| next()).collect();
    let weights = [24u8; 64];
    let scaling = ScalingMatrix::new(&weights, 24, 4, false);
    let params = dequant_params(4, 30, 8);
    let skip = transform_skip_params(4, 30, 8);
    let (mut a, mut b) = ([0i32; 16], [0i32; 16]);
    dequantize_clipped_scaled_into(&levels, 4, params, scaling, 900, &mut a);
    hpvcd::dequant::dequantize_scaled_into_scalar(&levels, 4, params, scaling, &mut b);
    assert_eq!(a, b);
    dequantize_clipped_transform_skip_into(&levels, 4, skip, 900, &mut a);
    hpvcd::dequant::dequantize_transform_skip_into_scalar(&levels, 4, skip, &mut b);
    assert_eq!(a, b);
    dequantize_clipped_transform_skip_scaled_into(&levels, 4, skip, scaling, 900, &mut a);
    hpvcd::dequant::dequantize_transform_skip_scaled_into_scalar(&levels, 4, skip, scaling, &mut b);
    assert_eq!(a, b);
}

#[test]
fn saturation_bounds_are_tight() {
    for (factor, add, shift) in [(40i64 << 9, 16i64, 5i32), (57, 1, 1), (72 << 4, 64, 7)] {
        let (pos, neg) = dequant_sat_bounds(factor, add, shift);
        let value = |level: i64| (level * factor + add) >> shift;
        assert!(value(pos as i64) < 32767 && value(pos as i64 + 1) >= 32767);
        assert!(value(neg as i64) >= -32768 && value(neg as i64 - 1) < -32768);
    }
    for (factor, add, shift) in [(i32::MAX as i64, 0i64, 31i32), (1 << 20, i32::MAX as i64, 24)] {
        let (pos, neg) = dequant_sat_bounds(factor, add, shift);
        let value = |level: i64| (level * factor + add) >> shift;
        assert!(value(pos as i64) < 32767 && value(pos as i64 + 1) >= 32767);
        assert!(value(neg as i64) > -32768 && value(neg as i64 - 1) <= -32768);
    }
    assert!(matches!(choose_width(16, 8, 4, 1000), Width::Direct));
    assert!(matches!(choose_width(1 << 40, 8, 4, 1000), Width::Wide));
}

#[test]
fn dequantisation_is_monotone() {
    let levels: Vec<i32> = (-8..8).collect();
    let mut out = [0i32; 16];
    dequantize_into(&levels, 4, 23, 8, &mut out);
    assert!(out.windows(2).all(|w| w[0] <= w[1]));
}

/// A band of four lines with the given samples, as columns.
fn columns(line: &[u16]) -> Vec<u16> {
    line.iter().flat_map(|&v| [v; 4]).collect()
}

/// A band of four lines with the given samples, as rows.
fn rows(line: &[u16]) -> Vec<u16> {
    (0..4).flat_map(|_| line.iter().copied()).collect()
}

#[test]
fn strong_filter_smooths_a_step() {
    let line = [10, 10, 10, 10, 26, 26, 26, 26];
    let filtered = [10, 12, 14, 16, 20, 22, 24, 26];
    let mut pix = columns(&line);
    luma_horizontal_plane(&mut pix, 4, 4, 0, 0, LumaDecision::Strong, 10, 255);
    assert_eq!(pix, columns(&filtered));
    let mut pix = rows(&line);
    luma_vertical_plane(&mut pix, 8, 4, 0, 0, LumaDecision::Strong, 10, 255);
    assert_eq!(pix, rows(&filtered));
    let mut pix = rows(&line);
    luma_vertical_plane(&mut pix, 8, 4, 0, 0, LumaDecision::Strong, 2, 255);
    assert_eq!(pix, rows(&[10, 12, 14, 14, 22, 22, 24, 26]));
}

#[test]
fn weak_filter_moves_the_edge_samples() {
    let line = [10, 10, 10, 10, 26, 26, 26, 26];
    let mut pix = rows(&line);
    let both = LumaDecision::Weak { do_p1: true, do_q1: true };
    luma_vertical_plane(&mut pix, 8, 4, 0, 0, both, 4, 255);
    assert_eq!(pix, rows(&[10, 10, 12, 14, 22, 24, 26, 26]));
    let mut pix = rows(&line);
    let none = LumaDecision::Weak { do_p1: false, do_q1: false };
    luma_vertical_plane(&mut pix, 8, 4, 0, 0, none, 4, 255);
    assert_eq!(pix, rows(&[10, 10, 10, 14, 22, 26, 26, 26]));
    let mut pix = rows(&line);
    luma_vertical_plane(&mut pix, 8, 4, 0, 0, none, 0, 255);
    assert_eq!(pix, rows(&line));
}

#[test]
fn chroma_filter_moves_one_sample_on_each_side() {
    let mut pix = rows(&[10, 10, 18, 18]);
    chroma_vertical_plane(&mut pix, 4, 2, 0, 0, 9, 255);
    assert_eq!(pix, rows(&[10, 13, 15, 18]));
    let mut pix = columns(&[10, 10, 18, 18]);
    chroma_horizontal_plane(&mut pix, 4, 2, 0, 0, 1, 255);
    assert_eq!(pix, columns(&[10, 11, 17, 18]));
}

#[test]
fn edges_near_the_border_and_flat_lines_stay() {
    let mut pix = columns(&[10, 20, 10, 20, 10, 20, 10, 20]);
    let before = pix.clone();
    luma_horizontal_plane(&mut pix, 4, 3, 0, 0, LumaDecision::Strong, 10, 255);
    luma_horizontal_plane(&mut pix, 4, 4, 1, 0, LumaDecision::Strong, 10, 255);
    chroma_horizontal_plane(&mut pix, 4, 1, 0, 0, 10, 255);
    assert_eq!(pix, before);
    let mut flat = rows(&[7; 8]);
    luma_vertical_plane(&mut flat, 8, 4, 0, 0, LumaDecision::Strong, 10, 255);
    chroma_vertical_plane(&mut flat, 8, 4, 0, 0, 10, 255);
    assert_eq!(flat, rows(&[7; 8]));
}

#[test]
fn edge_offsets_tell_valleys_from_peaks() {
    let src: Vec<u16> = vec![5, 3, 5, 5, 8, 5, 5, 9];
    let mut dst = src.clone();
    apply_sao_plane(&mut dst, &src, 8, 1, 0, 0, 8, 1, 2, &[100, 20, -2, -4], 0, 0, 8);
    assert_eq!(dst, vec![3, 103, 3, 25, 4, 25, 25, 7]);
    let mut dst = src.clone();
    let all = Region { x0: 0, y0: 0, x_end: 8, y_end: 1 };
    let picture = Picture { data: &src, w: 8, h: 1 };
    let params = SaoParams {
        type_idx: 2,
        offsets: [100, 20, -2, -4],
        band_pos: 0,
        eo_class: 0,
        border: EdgeBorder::Keep,
    };
    apply_sao_plane_banded(&mut dst, picture, 0, all, &params, 8);
    assert_eq!(dst, vec![5, 103, 3, 25, 4, 25, 25, 9]);
}

#[test]
fn short_bands_get_the_pieces_they_hold() {
    let edge = |eo_class: u8| SaoParams {
        type_idx: 2,
        offsets: [100, 20, -2, -4],
        band_pos: 0,
        eo_class,
        border: EdgeBorder::Equal,
    };
    let src: Vec<u16> = vec![5, 3, 5, 8];
    let picture = Picture { data: &src, w: 4, h: 1 };
    let all = Region { x0: 0, y0: 0, x_end: 4, y_end: 1 };
    let mut band = src[..3].to_vec();
    apply_sao_plane_banded(&mut band, picture, 0, all, &edge(0), 8);
    assert_eq!(band, vec![3, 103, 5]);
    let mut band = src[..2].to_vec();
    apply_sao_plane_banded(&mut band, picture, 0, all, &edge(0), 8);
    assert_eq!(band, vec![3, 3]);
    let bands = SaoParams { type_idx: 1, ..edge(0) };
    let mut band = src[..3].to_vec();
    apply_sao_plane_banded(&mut band, picture, 0, all, &bands, 8);
    assert_eq!(band, vec![5, 3, 5]);
    let src: Vec<u16> = [[5u16; 9], [9; 9]].concat();
    let picture = Picture { data: &src, w: 9, h: 2 };
    let top = Region { x0: 0, y0: 0, x_end: 9, y_end: 1 };
    let mut band = src[..8].to_vec();
    apply_sao_plane_banded(&mut band, picture, 0, top, &edge(2), 8);
    assert_eq!(band, vec![25; 8]);
    let mut band = src[..7].to_vec();
    apply_sao_plane_banded(&mut band, picture, 0, top, &edge(2), 8);
    assert_eq!(band, vec![5; 7]);
}

#[test]
fn large_offsets_are_clipped() {
    let region = Region { x0: 0, y0: 0, x_end: 1, y_end: 1 };
    let mut low = vec![0u16];
    apply_sao_band_offset_inplace(&mut low, 1, region, &[i32::MAX, 0, 0, 0], 0, 8);
    assert_eq!(low, vec![255]);
    let mut one = vec![0u16];
    add_residual_into(&mut one, 1, &[0], &[i32::MAX], 1, 1, 1, 8);
    assert_eq!(one, vec![255]);
}

#[test]
fn edge_classes_look_in_their_direction() {
    let mut src = vec![4u16; 9];
    src[4] = 2;
    for (class, index) in [(0, 3), (1, 1), (2, 0), (3, 2)] {
        let mut marked = src.clone();
        marked[index] = 2;
        let mut dst = marked.clone();
        apply_sao_plane(&mut dst, &marked, 3, 3, 1, 1, 2, 2, 2, &[10, 20, 30, 40], 0, class, 8);
        assert_eq!(dst[4], 22);
        let mut dst = src.clone();
        apply_sao_plane(&mut dst, &src, 3, 3, 1, 1, 2, 2, 2, &[10, 20, 30, 40], 0, class, 8);
        assert_eq!(dst[4], 12);
    }
}

#[test]
fn band_offsets_move_four_bands() {
    let src: Vec<u16> = vec![7, 8, 16, 24, 32, 39, 40, 255];
    let mut dst = src.clone();
    apply_sao_plane(&mut dst, &src, 8, 1, 0, 0, 8, 1, 1, &[1, 2, -30, 300], 1, 0, 8);
    assert_eq!(dst, vec![7, 9, 18, 0, 255, 255, 40, 255]);
    let region = Region { x0: 0, y0: 0, x_end: 4, y_end: 2 };
    let mut inplace = src.clone();
    apply_sao_band_offset_inplace(&mut inplace, 4, region, &[1, 2, -30, 300], 1, 8);
    assert_eq!(inplace, dst);
    let lower = Region { x0: 1, y0: 3, x_end: 3, y_end: 4 };
    let mut band = src.clone();
    apply_sao_band_offset_banded_inplace(&mut band, 4, 2, lower, &[1, 2, -30, 300], 1, 8);
    assert_eq!(band, vec![7, 8, 16, 24, 32, 255, 40, 255]);
    let mut off = src.clone();
    apply_sao_plane(&mut off, &src, 8, 1, 0, 0, 8, 1, 1, &[0; 4], 1, 0, 8);
    assert_eq!(off, src);
}

#[test]
fn residuals_are_added_and_clipped() {
    let pred = [100u16, 200, 50, 0];
    let res = [5i32, 100, -60, -1];
    let mut dst = vec![9u16; 6];
    add_residual_into(&mut dst, 3, &pred, &res, 2, 2, 2, 8);
    assert_eq!(dst, vec![105, 255, 9, 0, 0, 9]);
    let mut dst = vec![9u16; 6];
    add_residual_into(&mut dst, 3, &pred, &[0i16; 4], 2, 1, 2, 8);
    assert_eq!(dst, vec![100, 9, 9, 50, 9, 9]);
    assert_eq!((sample_max(8), sample_max(10)), (255, 1023));
    assert!(has_full_dst(&dst, 3, 2) && !has_full_dst(&dst, 5, 2));
    assert!(can_reconstruct_full_block(&dst, 3, &pred, &res, 2, 2, 2, 8));
    assert!(!can_reconstruct_full_block(&dst, 3, &pred, &res, 2, 1, 2, 8));
    let mut narrow = [1i16; 4];
    narrow_i32_to_i16(&[70000, -70000, 3], &mut narrow);
    assert_eq!(narrow, [32767, -32768, 3, 1]);
}
