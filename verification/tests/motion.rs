use hpvcd::motion::{
    derive_amvp, derive_merge, prediction_block_available, scale_mv, spatial, temporal_merge,
    MotionInfo, Mv, PredFlags, PuGeom, RefEntry, SpatialPos, UniformNeighbors,
};

fn l1_only_temporal() -> UniformNeighbors {
    UniformNeighbors {
        motion: None,
        available: false,
        collocated: [None, Some(Mv::new(12, -4))],
        cur_poc: 8,
        ctb_log2: 6,
    }
}

fn forward_motion() -> MotionInfo {
    MotionInfo {
        pred: PredFlags { l0: true, l1: false },
        ref_idx: [0, -1],
        ..Default::default()
    }
}

fn whole_unit(is_b: bool) -> PuGeom {
    PuGeom {
        x: 0,
        y: 0,
        w: 16,
        h: 16,
        cu_x: 0,
        cu_y: 0,
        is_b,
        part_idx: 0,
        cu_w: 16,
        cu_h: 16,
        par_mrg_level: 2,
        curr_pic_ref: false,
    }
}

#[test]
fn scale_identity_when_equal_dist() {
    let mv = Mv::new(10, -6);
    let s = scale_mv(mv, 4, 4);
    assert_eq!(s, mv);
}

#[test]
fn scale_halves_on_double_dist() {
    let mv = Mv::new(16, 0);
    let s = scale_mv(mv, 8, 4);
    assert!((s.x - 8).abs() <= 1);
}

#[test]
fn current_picture_amvp_uses_normative_zero_padding() {
    let pu = whole_unit(false);
    let current = [RefEntry { _dpb_index: usize::MAX, poc: 8, long_term: true }];
    assert_eq!(
        derive_amvp(&l1_only_temporal(), &pu, 0, 8, false, &current, &[]),
        [Mv::default(), Mv::default()]
    );
}

#[test]
fn temporal_merge_keeps_l1_only_candidate() {
    let pu = whole_unit(true);
    let refs0 = [RefEntry { _dpb_index: 0, poc: 4, long_term: false }];
    let refs1 = [RefEntry { _dpb_index: 1, poc: 12, long_term: false }];
    let cand = temporal_merge(&l1_only_temporal(), &pu, &refs0, &refs1).unwrap();
    assert_eq!(cand.pred, PredFlags { l0: false, l1: true });
    assert_eq!(cand.mv, [Mv::default(), Mv::new(12, -4)]);
    assert_eq!(cand.ref_idx, [-1, 0]);
}

#[test]
fn default_parallel_merge_level_filters_same_region() {
    let nb = UniformNeighbors {
        motion: Some(forward_motion()),
        available: true,
        collocated: [None, None],
        cur_poc: 0,
        ctb_log2: 6,
    };
    let pu = PuGeom {
        x: 10,
        y: 10,
        w: 4,
        h: 4,
        cu_x: 8,
        cu_y: 8,
        is_b: false,
        part_idx: 0,
        cu_w: 4,
        cu_h: 4,
        par_mrg_level: 2,
        curr_pic_ref: false,
    };
    assert!(spatial(&nb, 9, 10, &pu, SpatialPos::A1).is_none());
}

#[test]
fn previous_pu_in_same_cu_does_not_require_decoded_map() {
    let nb = UniformNeighbors {
        motion: Some(forward_motion()),
        available: false,
        collocated: [None, None],
        cur_poc: 0,
        ctb_log2: 6,
    };
    let pu = PuGeom {
        x: 0,
        y: 8,
        w: 8,
        h: 8,
        cu_x: 0,
        cu_y: 0,
        is_b: false,
        part_idx: 2,
        cu_w: 16,
        cu_h: 16,
        par_mrg_level: 0,
        curr_pic_ref: false,
    };
    assert!(prediction_block_available(&nb, &pu, 7, 7));
    assert!(spatial(&nb, 7, 7, &pu, SpatialPos::B1).is_some());
}

#[test]
fn second_nxn_pu_rejects_unavailable_same_cu_region() {
    let nb = UniformNeighbors {
        motion: Some(MotionInfo::default()),
        available: true,
        collocated: [None, None],
        cur_poc: 0,
        ctb_log2: 6,
    };
    let pu = PuGeom {
        x: 8,
        y: 0,
        w: 8,
        h: 8,
        cu_x: 0,
        cu_y: 0,
        is_b: false,
        part_idx: 1,
        cu_w: 16,
        cu_h: 16,
        par_mrg_level: 0,
        curr_pic_ref: false,
    };
    assert!(!prediction_block_available(&nb, &pu, 7, 8));
    assert!(prediction_block_available(&nb, &pu, 8, 8));
}

#[test]
fn zero_merge_candidates_include_current_picture_reference_slot() {
    let pu = whole_unit(false);
    let refs = [
        RefEntry { _dpb_index: 0, poc: 4, long_term: false },
        RefEntry { _dpb_index: usize::MAX, poc: 8, long_term: true },
    ];
    let cand = derive_merge(&l1_only_temporal(), &pu, 1, 2, false, &refs, &[]);
    assert_eq!(cand.ref_idx, [1, -1]);
    assert_eq!(cand.mv, [Mv::default(), Mv::default()]);
}

#[test]
fn equal_distances_keep_vectors_up_to_rounding() {
    for d in (1..=64).chain([127, 128, 500]) {
        for c in [0, 1, -7, 300, 32767, -32768] {
            let mv = Mv::new(c, -c.max(-32767));
            assert_eq!(scale_mv(mv, d, d), mv);
            assert_eq!(scale_mv(mv, -d, -d), mv);
        }
    }
    assert_eq!(scale_mv(Mv::new(127, -127), 121, 121), Mv::new(127, -127));
    assert_eq!(scale_mv(Mv::new(3000, 0), 121, 121), Mv::new(2988, 0));
}
