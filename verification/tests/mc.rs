use hpvcd::mc::{
    bi_pred, bi_pred_weighted, chroma_interp, luma_interp, uni_pred, uni_pred_weighted, RefPlane,
};

fn plane(data: Vec<u16>, w: usize, h: usize) -> (Vec<u16>, usize, usize) {
    (data, w, h)
}

#[test]
fn full_pel_copy_roundtrips() {
    let (d, w, h) = plane((0..16).map(|v| v as u16).collect(), 4, 4);
    let r = RefPlane { data: &d, stride: w, width: w, height: h };
    let mut mid = vec![0i16; 16];
    luma_interp(&r, 0, 0, 0, 0, 4, 4, 8, &mut mid);
    let mut out = vec![0u16; 16];
    uni_pred(&mid, 4, 4, 8, &mut out, 4);
    assert_eq!(out, d);
}

#[test]
fn half_pel_symmetry() {
    let d = vec![128u16; 8 * 8];
    let r = RefPlane { data: &d, stride: 8, width: 8, height: 8 };
    let mut mid = vec![0i16; 16];
    luma_interp(&r, 2, 2, 2, 2, 4, 4, 8, &mut mid);
    let mut out = vec![0u16; 16];
    uni_pred(&mid, 4, 4, 8, &mut out, 4);
    assert!(out.iter().all(|&v| v == 128));
}

#[test]
fn half_pel_exact_value() {
    let d: Vec<u16> = vec![10, 20, 30, 40, 50, 60, 70, 80];
    let r = RefPlane { data: &d, stride: 8, width: 8, height: 1 };
    let mut mid = vec![0i16; 1];
    luma_interp(&r, 3, 0, 2, 0, 1, 1, 8, &mut mid);
    assert_eq!(mid[0], 2880, "intermediate half-pel");
    let mut out = vec![0u16; 1];
    uni_pred(&mid, 1, 1, 8, &mut out, 1);
    assert_eq!(out[0], 45);
}

#[test]
fn bi_avg_of_equal_is_same() {
    let s = vec![128i16 << 6; 16];
    let mut out = vec![0u16; 16];
    bi_pred(&s, &s, 4, 4, 8, &mut out, 4);
    assert!(out.iter().all(|&v| v == 128));
}

#[test]
fn samples_beyond_the_border_repeat_it() {
    let d: Vec<u16> = vec![1, 2, 3, 4];
    let r = RefPlane { data: &d, stride: 2, width: 2, height: 2 };
    let mut mid = vec![0i16; 16];
    luma_interp(&r, -1, -1, 0, 0, 4, 4, 8, &mut mid);
    let mut out = vec![0u16; 16];
    uni_pred(&mid, 4, 4, 8, &mut out, 4);
    assert_eq!(out, vec![1, 1, 2, 2, 1, 1, 2, 2, 3, 3, 4, 4, 3, 3, 4, 4]);
}

#[test]
fn chroma_quarter_positions() {
    let d: Vec<u16> = vec![10, 20, 30, 40];
    let r = RefPlane { data: &d, stride: 4, width: 4, height: 1 };
    let mut mid = vec![0i16; 1];
    chroma_interp(&r, 1, 0, 4, 0, 1, 1, 8, &mut mid);
    assert_eq!(mid[0], 25 * 64);
    chroma_interp(&r, 1, 0, 0, 3, 1, 1, 8, &mut mid);
    assert_eq!(mid[0], 20 * 64);
}

#[test]
fn flat_references_predict_flat_blocks() {
    let d = vec![200u16; 64];
    let r = RefPlane { data: &d, stride: 8, width: 8, height: 8 };
    for fx in 0..4 {
        for fy in 0..4 {
            let mut mid = vec![0i16; 16];
            luma_interp(&r, 1, 1, fx, fy, 4, 4, 8, &mut mid);
            let mut out = vec![0u16; 16];
            uni_pred(&mid, 4, 4, 8, &mut out, 4);
            assert!(out.iter().all(|&v| v == 200));
        }
    }
}

#[test]
fn weights_scale_and_shift() {
    let s = vec![64 * 100i16; 4];
    let t = vec![64 * 50i16; 4];
    let mut out = vec![7u16; 6];
    uni_pred_weighted(&s, 2, 2, 8, 2, 10, 2, &mut out, 3);
    assert_eq!(out, vec![60, 60, 7, 60, 60, 7]);
    uni_pred_weighted(&s, 2, 2, 8, 4, 0, 2, &mut out, 3);
    assert_eq!(out[0], 100);
    bi_pred_weighted(&s, &t, 2, 2, 8, 1, 0, 1, 0, 0, &mut out, 3);
    assert_eq!(out, vec![75, 75, 7, 75, 75, 7]);
    bi_pred_weighted(&s, &t, 2, 2, 8, 3, 4, -1, 5, 1, &mut out, 3);
    assert_eq!(out[0], 67);
    bi_pred(&s, &t, 2, 2, 8, &mut out, 3);
    assert_eq!(out[0], 75);
    bi_pred_weighted(&s, &t, 2, 2, 8, 4, 0, 4, 0, 2, &mut out, 3);
    assert_eq!(out[0], 75);
}

#[test]
fn two_weights_may_be_large() {
    let s = vec![64 * 100i16; 4];
    let t = vec![64 * 50i16; 4];
    let mut out = vec![7u16; 4];
    bi_pred_weighted(&s, &t, 2, 2, 8, 1048578, 0, -2097152, 0, 0, &mut out, 2);
    assert_eq!(out, vec![100; 4]);
    bi_pred_weighted(&t, &s, 2, 2, 8, -2097152, 0, 1048578, 0, 0, &mut out, 2);
    assert_eq!(out, vec![100; 4]);
    bi_pred_weighted(&s, &t, 2, 2, 8, i32::MAX, 0, 0, 0, 0, &mut out, 2);
    assert_eq!(out, vec![0; 4]);
}

#[test]
fn flat_planes_have_flat_intermediates() {
    for (bd, c, expected) in [(8u8, 200u16, 12800i16), (10, 600, 9600), (14, 16383, 16383)] {
        let data = vec![c; 12];
        let r = RefPlane { data: &data, stride: 4, width: 4, height: 3 };
        for fx in 0..4 {
            for fy in 0..4 {
                let mut mid = vec![-7i16; 8];
                luma_interp(&r, -5, 2, fx, fy, 3, 2, bd, &mut mid);
                assert_eq!(mid[..6], [expected; 6]);
                assert_eq!(mid[6..], [-7, -7]);
            }
        }
        let mut mid = vec![-7i16; 4];
        chroma_interp(&r, 1, -9, 3, 5, 2, 2, bd, &mut mid);
        assert_eq!(mid, vec![expected; 4]);
    }
}

#[test]
fn whole_sample_blocks_repeat_the_border() {
    let data: Vec<u16> = (0..12).collect();
    let r = RefPlane { data: &data, stride: 4, width: 4, height: 3 };
    let mut mid = vec![0i16; 6];
    luma_interp(&r, -1, 1, 0, 0, 3, 2, 8, &mut mid);
    let mut out = vec![99u16; 9];
    uni_pred(&mid, 3, 2, 8, &mut out, 4);
    assert_eq!(out, vec![4, 4, 5, 99, 8, 8, 9, 99, 99]);
}
