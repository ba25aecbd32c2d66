use hpvcd::formats::{BitDepth, ChromaFormat, ImageBuffer, SampleBuf};
use hpvcd::image::GainMap;
use hpvcd::metadata::Orientation;
use hpvcd::orientation::{
    apply_orientation, orientable, oriented_dimensions, rotate_buf, rotate_luma, rotate_sample_buf,
    turned_into,
};
use hpvcd::{ColorMetadata, DecodeError};

const ALL: [Orientation; 8] = [
    Orientation::Normal,
    Orientation::FlipH,
    Orientation::Rotate180,
    Orientation::FlipV,
    Orientation::Transpose,
    Orientation::Rotate90,
    Orientation::Transverse,
    Orientation::Rotate270,
];

fn turn(w: usize, h: usize, p: &[u8], o: Orientation) -> Vec<u8> {
    rotate_luma(w, h, p.to_vec(), o).unwrap()
}

#[test]
fn luma_turns_as_expected() {
    let p = [1u8, 2, 3, 4, 5, 6];
    assert_eq!(turn(3, 2, &p, Orientation::Normal), vec![1, 2, 3, 4, 5, 6]);
    assert_eq!(turn(3, 2, &p, Orientation::FlipH), vec![3, 2, 1, 6, 5, 4]);
    assert_eq!(turn(3, 2, &p, Orientation::FlipV), vec![4, 5, 6, 1, 2, 3]);
    assert_eq!(turn(3, 2, &p, Orientation::Rotate180), vec![6, 5, 4, 3, 2, 1]);
    assert_eq!(turn(3, 2, &p, Orientation::Rotate90), vec![4, 1, 5, 2, 6, 3]);
    assert_eq!(turn(3, 2, &p, Orientation::Rotate270), vec![3, 6, 2, 5, 1, 4]);
    assert_eq!(turn(3, 2, &p, Orientation::Transpose), vec![1, 4, 2, 5, 3, 6]);
    assert_eq!(turn(3, 2, &p, Orientation::Transverse), vec![6, 3, 5, 2, 4, 1]);
}

#[test]
fn pixels_keep_their_channels_together() {
    let p: Vec<u16> = (0..18).collect();
    assert_eq!(
        rotate_buf(3, 2, p.clone(), Orientation::Rotate90).unwrap(),
        vec![9, 10, 11, 0, 1, 2, 12, 13, 14, 3, 4, 5, 15, 16, 17, 6, 7, 8]
    );
    assert_eq!(
        rotate_buf(3, 2, p.clone(), Orientation::FlipH).unwrap(),
        vec![6, 7, 8, 3, 4, 5, 0, 1, 2, 15, 16, 17, 12, 13, 14, 9, 10, 11]
    );
    assert_eq!(
        rotate_buf(3, 2, p, Orientation::Rotate180).unwrap(),
        vec![15, 16, 17, 12, 13, 14, 9, 10, 11, 6, 7, 8, 3, 4, 5, 0, 1, 2]
    );
}

#[test]
fn turning_back_restores_the_image() {
    let p: Vec<u8> = (0..36).collect();
    for o in ALL {
        let back = match o {
            Orientation::Rotate90 => Orientation::Rotate270,
            Orientation::Rotate270 => Orientation::Rotate90,
            _ => o,
        };
        let (w, h) = match o {
            Orientation::Rotate90
            | Orientation::Rotate270
            | Orientation::Transpose
            | Orientation::Transverse => (3, 4),
            _ => (4, 3),
        };
        let t = rotate_buf(4, 3, p.clone(), o).unwrap();
        assert_eq!(rotate_buf(w, h, t, back).unwrap(), p);
    }
}

#[test]
fn turning_goes_by_the_room_there_is() {
    let p = vec![1u16, 2, 3, 4, 5, 6];
    assert_eq!(
        turned_into(Ok(vec![0; 6]), 3, 2, 1, p.clone(), Orientation::Rotate90).unwrap(),
        vec![4, 1, 5, 2, 6, 3]
    );
    assert_eq!(
        turned_into(Ok(vec![0; 6]), 1, 2, 3, p.clone(), Orientation::FlipV).unwrap(),
        vec![4, 5, 6, 1, 2, 3]
    );
    assert!(matches!(
        turned_into(Err(DecodeError::Bitstream("no room")), 3, 2, 1, p, Orientation::FlipH),
        Err(DecodeError::Bitstream("no room"))
    ));
}

#[test]
fn gain_maps_are_transposed() {
    let map = GainMap {
        width: 3,
        height: 2,
        chroma_width: 0,
        chroma_height: 0,
        y: SampleBuf::U8(vec![1, 2, 3, 4, 5, 6]),
        cb: None,
        cr: None,
        chroma: ChromaFormat::Monochrome,
        bit_depth: BitDepth::Eight,
        color: ColorMetadata { cicp: None, icc: None },
        orientation: Orientation::Transpose,
        metadata: None,
    };
    let turned = map.apply_orientation().unwrap();
    assert_eq!((turned.width, turned.height), (2, 3));
    assert!(matches!(turned.y, SampleBuf::U8(v) if v == vec![1, 4, 2, 5, 3, 6]));
}

#[test]
fn transposing_is_turning_and_mirroring() {
    let p: Vec<u8> = (0..12).collect();
    let q = turn(4, 3, &p, Orientation::Rotate90);
    assert_eq!(turn(4, 3, &p, Orientation::Transpose), turn(3, 4, &q, Orientation::FlipH));
    assert_eq!(turn(4, 3, &p, Orientation::Transverse), turn(3, 4, &q, Orientation::FlipV));
}

#[test]
fn turns_compose() {
    let p: Vec<u8> = (0..12).collect();
    let half = turn(4, 3, &p, Orientation::Rotate180);
    let h = turn(4, 3, &p, Orientation::FlipH);
    assert_eq!(turn(4, 3, &h, Orientation::FlipV), half);
    let q = turn(4, 3, &p, Orientation::Rotate90);
    assert_eq!(turn(3, 4, &q, Orientation::Rotate90), half);
}

#[test]
fn incomplete_rows_become_blank() {
    assert_eq!(turn(3, 2, &[1, 2, 3, 4, 5], Orientation::FlipH), vec![3, 2, 1, 0, 0]);
    assert_eq!(turn(2, 1, &[1, 2, 3], Orientation::Rotate90), vec![1, 2, 0]);
    assert_eq!(rotate_buf(1, 1, vec![1u8, 2, 3, 4, 5, 6, 7], Orientation::Rotate180).unwrap(),
        vec![4, 5, 6, 1, 2, 3, 7]);
}

#[test]
fn sizes_swap_with_the_axes() {
    for o in ALL {
        let swaps = matches!(
            o,
            Orientation::Rotate90
                | Orientation::Rotate270
                | Orientation::Transpose
                | Orientation::Transverse
        );
        assert_eq!(oriented_dimensions(4, 3, o), if swaps { (3, 4) } else { (4, 3) });
    }
    assert!(orientable(Orientation::Rotate90, 36, 4, 3, 3));
    assert!(!orientable(Orientation::Rotate90, 35, 4, 3, 3));
    assert!(!orientable(Orientation::FlipH, 0, 0, 3, 1));
}

#[test]
fn image_and_alpha_turn_together() {
    let pixels = ImageBuffer::Rgb8(vec![1, 2, 3, 4, 5, 6]);
    let alpha = Some(SampleBuf::U16(vec![7, 8]));
    let r = apply_orientation(2, 1, pixels, alpha, Orientation::Rotate270).unwrap();
    assert_eq!((r.width, r.height), (1, 2));
    assert!(matches!(r.pixels, ImageBuffer::Rgb8(v) if v == vec![4, 5, 6, 1, 2, 3]));
    assert!(matches!(r.alpha, Some(SampleBuf::U16(v)) if v == vec![8, 7]));
    let luma = ImageBuffer::Luma16(vec![1, 2]);
    let r = apply_orientation(2, 1, luma, None, Orientation::FlipH).unwrap();
    assert!(matches!(r.pixels, ImageBuffer::Luma16(v) if v == vec![2, 1]));
    let s = rotate_sample_buf(SampleBuf::U8(vec![1, 2]), 2, 1, Orientation::FlipH).unwrap();
    assert!(matches!(s, SampleBuf::U8(v) if v == vec![2, 1]));
}
