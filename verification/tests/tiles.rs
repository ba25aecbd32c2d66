use hpvcd::tiles::{Pps, TileGrid};

fn pps_tiles(cols: u32, rows: u32, uniform: bool, cw: Vec<u32>, rh: Vec<u32>) -> Pps {
    let mut p = Pps::untiled();
    p.tiles_enabled = true;
    p.num_tile_columns = cols;
    p.num_tile_rows = rows;
    p.tile_uniform_spacing = uniform;
    p.tile_column_widths = cw;
    p.tile_row_heights = rh;
    p.loop_filter_across_tiles = false;
    p
}

#[test]
fn no_tiles_returns_none() {
    let p = Pps::untiled();
    assert!(TileGrid::from_pps(&p, 4, 4).is_none());
}

#[test]
fn uniform_2x2_scan_order() {
    let p = pps_tiles(2, 2, true, vec![], vec![]);
    let g = TileGrid::from_pps(&p, 4, 4).unwrap();
    assert_eq!(g.col_width, vec![2, 2]);
    assert_eq!(g.row_height, vec![2, 2]);
    assert_eq!(g.rs_to_ts(0), 0);
    assert_eq!(g.rs_to_ts(1), 1);
    assert_eq!(g.rs_to_ts(4), 2);
    assert_eq!(g.rs_to_ts(5), 3);
    assert_eq!(g.rs_to_ts(2), 4);
    assert_eq!(g.rs_to_ts(8), 8);
    for rs in 0..16 {
        assert_eq!(g.ts_to_rs(g.rs_to_ts(rs)), rs);
    }
    assert!(g.is_tile_start_rs(2));
    assert!(!g.is_tile_start_rs(1));
    assert_eq!(g.tile_id_at(0, 0), 0);
    assert_eq!(g.tile_id_at(2, 0), 1);
    assert_eq!(g.tile_id_at(0, 2), 2);
}

#[test]
fn non_uniform_columns() {
    let p = pps_tiles(2, 1, false, vec![3], vec![]);
    let g = TileGrid::from_pps(&p, 5, 2).unwrap();
    assert_eq!(g.col_width, vec![3, 2]);
    assert_eq!(g.col_bd, vec![0, 3]);
}

#[test]
fn uniform_uneven_division() {
    let p = pps_tiles(2, 1, true, vec![], vec![]);
    let g = TileGrid::from_pps(&p, 5, 1).unwrap();
    assert_eq!(g.col_width, vec![2, 3]);
}

#[test]
fn asymmetric_3x2_bijection_and_tile_starts() {
    let p = pps_tiles(3, 2, false, vec![2, 3], vec![2]);
    let g = TileGrid::from_pps(&p, 7, 5).unwrap();
    assert_eq!(g.col_width, vec![2, 3, 2]);
    assert_eq!(g.row_height, vec![2, 3]);
    let pic = 7 * 5;
    let mut seen = vec![false; pic];
    for rs in 0..pic {
        let ts = g.rs_to_ts(rs);
        assert!(ts < pic);
        assert!(!seen[ts], "ts {ts} produced twice");
        seen[ts] = true;
        assert_eq!(g.ts_to_rs(ts), rs);
    }
    let starts = (0..pic).filter(|&rs| g.is_tile_start_rs(rs)).count();
    assert_eq!(starts, 6);
    assert!(g.is_tile_start_rs(2));
    assert!(g.is_tile_start_rs(2 * 7));
}

#[test]
fn scan_orders_are_inverse() {
    let p = pps_tiles(3, 2, true, vec![], vec![]);
    let g = TileGrid::from_pps(&p, 7, 5).unwrap();
    let mut starts = 0;
    for rs in 0..35 {
        let ts = g.rs_to_ts(rs);
        assert!(ts < 35);
        assert_eq!(g.ts_to_rs(ts), rs);
        if g.is_tile_start_rs(rs) {
            starts += 1;
            assert_eq!((g.tile_col_start(rs % 7), g.tile_row_start(rs / 7)), (rs % 7, rs / 7));
        }
    }
    assert_eq!(starts, 6);
    assert_eq!((g.tile_id_at(6, 4), g.col_of(2), g.row_of(1)), (5, 1, 0));
}
