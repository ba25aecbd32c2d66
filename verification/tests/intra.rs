use hpvcd::intra::{
    predict_angular, predict_dc, predict_into, predict_mode10, predict_mode26, predict_planar,
    supported_n, supported_predictor,
};

fn ramp(n: usize, start: u16, step: u16) -> Vec<u16> {
    (0..2 * n + 1).map(|i| start + step * i as u16).collect()
}

fn predict(mode: u8, above: &[u16], left: &[u16], n: usize, luma: bool) -> Vec<u16> {
    let mut out = vec![0; n * n];
    predict_into(mode, above, left, n, luma, 8, &mut out);
    out
}

#[test]
fn sizes_and_modes() {
    assert!(supported_n(4) && supported_n(32) && !supported_n(64) && !supported_n(3));
    assert!(supported_predictor(34, 8) && !supported_predictor(35, 8));
}

#[test]
fn planar_interpolates_between_the_borders() {
    let above: Vec<u16> = vec![0, 10, 20, 30, 40, 50, 0, 0, 0];
    let left: Vec<u16> = vec![0, 12, 24, 36, 48, 60, 0, 0, 0];
    let mut out = vec![0; 16];
    predict_planar(&above, &left, 4, &mut out);
    for y in 0..4 {
        for x in 0..4 {
            let v = (3 - x) * left[y + 1] as usize
                + (x + 1) * above[5] as usize
                + (3 - y) * above[x + 1] as usize
                + (y + 1) * left[5] as usize;
            assert_eq!(out[y * 4 + x] as usize, (v + 4) / 8);
        }
    }
}

#[test]
fn dc_is_the_mean_with_smoothed_edges() {
    let mut above = vec![20u16; 9];
    let left = vec![40u16; 9];
    above[1] = 28;
    let mut out = vec![0; 16];
    predict_dc(&above, &left, 4, false, &mut out);
    assert!(out.iter().all(|&v| v == 31));
    predict_dc(&above, &left, 4, true, &mut out);
    assert_eq!(out[..8], [33, 28, 28, 28, 33, 31, 31, 31]);
}

#[test]
fn straight_modes_copy_a_border() {
    let above = ramp(4, 10, 10);
    let left = ramp(4, 10, 2);
    let mut out = vec![0; 16];
    predict_mode26(&above, &left, 4, false, 8, &mut out);
    for y in 0..4 {
        assert_eq!(out[4 * y..4 * y + 4], above[1..5]);
    }
    predict_mode26(&above, &left, 4, true, 8, &mut out);
    assert_eq!([out[0], out[4], out[8], out[12]], [21, 22, 23, 24]);
    predict_mode10(&above, &left, 4, false, 8, &mut out);
    assert!((0..4).all(|y| out[4 * y..4 * y + 4].iter().all(|&v| v == left[y + 1])));
    predict_mode10(&above, &left, 4, true, 8, &mut out);
    assert_eq!(out[..4], [17, 22, 27, 32]);
}

#[test]
fn diagonal_modes_follow_the_diagonal() {
    let above = ramp(4, 10, 10);
    let left = ramp(4, 10, 2);
    let mut out = vec![0; 16];
    predict_angular(34, &above, &left, 4, 8, &mut out);
    for y in 0..4 {
        assert_eq!(out[4 * y..4 * y + 4], above[y + 2..y + 6]);
    }
    predict_angular(18, &above, &left, 4, 8, &mut out);
    assert_eq!(out[..4], [10, 20, 30, 40]);
    assert_eq!(out[12..], [16, 14, 12, 10]);
    predict_angular(2, &above, &left, 4, 8, &mut out);
    assert_eq!(out[..4], left[2..6]);
    predict_angular(30, &above, &left, 4, 8, &mut out);
    assert_eq!(out[0], 24);
}

#[test]
fn exchanged_borders_transpose_the_block() {
    let above = ramp(8, 10, 3);
    let left = ramp(8, 10, 11);
    for mode in 0..=34u8 {
        let twin = if mode < 2 { mode } else { 36 - mode };
        let a = predict(mode, &above, &left, 8, true);
        let b = predict(twin, &left, &above, 8, true);
        for y in 0..8 {
            for x in 0..8 {
                assert_eq!(a[y * 8 + x], b[x * 8 + y], "mode {}", mode);
            }
        }
    }
}

#[test]
fn flat_borders_give_flat_blocks() {
    for mode in 0..=34u8 {
        for n in [2, 4, 8, 16, 32] {
            let border = vec![77u16; 2 * n + 1];
            assert!(predict(mode, &border, &border, n, true).iter().all(|&v| v == 77));
        }
    }
}

#[test]
fn short_borders_serve_modes_that_look_no_further() {
    let above = vec![50u16, 10, 20, 30, 40];
    let left = vec![50u16, 12, 24, 36, 48];
    let mut far_above = above.clone();
    let mut far_left = left.clone();
    far_above.extend([99; 4]);
    far_left.extend([77; 4]);
    for mode in [1, 10, 26] {
        assert_eq!(
            predict(mode, &above, &left, 4, true),
            predict(mode, &far_above, &far_left, 4, true)
        );
    }
    assert_eq!(predict(26, &above, &left, 4, false)[4..8], [10, 20, 30, 40]);
    assert_eq!(predict(10, &above, &left, 4, false)[4..8], [24; 4]);
}
