use hpvcd::formats::{BitDepth, ChromaFormat, ImageBuffer, PlaneBuffer, PlaneLayout, SampleBuf, YuvBuffer};
use hpvcd::image::GainMapFrame;
use hpvcd::metadata::Orientation;
use hpvcd::rgb8::{packed_into, to_rgb8};
use hpvcd::window::{copied_window, native_to_visible_buffer, plane_window, visible_native_planes, HevcVisibleCrop};
use hpvcd::yuv::{NativePlanes, NativeYuvPlanes};
use hpvcd::{ColorMetadata, DecodeError};

fn ramp(n: usize) -> Vec<u8> {
    (0..n).map(|v| v as u8).collect()
}

#[test]
fn inner_window_keeps_the_buffer() {
    let p = plane_window(ramp(20), 5, 4, 1, 1, 3, 2).unwrap();
    assert_eq!(p.data.len(), 20);
    assert_eq!(p.layout, PlaneLayout { width: 3, height: 2, stride: 5, offset: 6 });
    assert_eq!(p.into_tight().unwrap(), vec![6, 7, 8, 11, 12, 13]);
}

#[test]
fn outer_window_repeats_the_edge() {
    let p = plane_window(ramp(6), 3, 2, 1, 1, 3, 3).unwrap();
    assert_eq!((p.width(), p.height()), (3, 3));
    assert_eq!(p.into_tight().unwrap(), vec![4, 5, 5, 4, 5, 5, 4, 5, 5]);
}

#[test]
fn copied_windows_have_no_padding() {
    let p = plane_window(vec![1u8, 2, 3, 4], 2, 2, 1, 0, 2, 2).unwrap();
    assert_eq!(p.layout, PlaneLayout { width: 2, height: 2, stride: 2, offset: 0 });
    assert_eq!(p.data, vec![2, 2, 4, 4]);
    let p = copied_window(Ok(vec![9u8; 4]), &vec![1, 2, 3, 4], 2, 2, 1, 0, 2, 2).unwrap();
    assert_eq!(p.data, vec![2, 2, 4, 4]);
    let p = copied_window(Ok(vec![9u8; 2]), &vec![], 0, 0, 0, 0, 2, 1).unwrap();
    assert_eq!(p.data, vec![0, 0]);
    let none: Result<Vec<u8>, DecodeError> = Err(DecodeError::Bitstream("no room"));
    assert!(matches!(
        copied_window(none, &vec![1, 2, 3, 4], 2, 2, 1, 0, 2, 2),
        Err(DecodeError::Bitstream("no room"))
    ));
}

#[test]
fn copies_leave_padding_behind() {
    let layout = PlaneLayout { width: 3, height: 2, stride: 5, offset: 6 };
    let p = PlaneBuffer::from_parts(ramp(20), layout);
    assert_eq!(p.copied_into(Ok(vec![0; 6])).unwrap(), vec![6, 7, 8, 11, 12, 13]);
    assert!(matches!(
        p.copied_into(Err(DecodeError::Bitstream("no room"))),
        Err(DecodeError::Bitstream("no room"))
    ));
}

#[test]
fn packing_goes_by_the_room_there_is() {
    let grey = || ImageBuffer::Luma16(vec![1023, 4]);
    assert_eq!(
        packed_into(Ok(vec![0; 6]), grey(), BitDepth::Ten).unwrap(),
        vec![255, 255, 255, 1, 1, 1]
    );
    assert_eq!(to_rgb8(grey(), BitDepth::Ten).unwrap(), vec![255, 255, 255, 1, 1, 1]);
    let none = || Err(DecodeError::Bitstream("no room"));
    assert!(matches!(
        packed_into(none(), grey(), BitDepth::Ten),
        Err(DecodeError::Bitstream("no room"))
    ));
    let packed = ImageBuffer::Rgb8(vec![1, 2, 3]);
    assert_eq!(packed_into(none(), packed, BitDepth::Eight).unwrap(), vec![1, 2, 3]);
    let deep = ImageBuffer::Rgb16(vec![16, 32, 4095]);
    assert_eq!(packed_into(Ok(vec![0; 3]), deep, BitDepth::Twelve).unwrap(), vec![1, 2, 255]);
}

#[test]
fn full_window_shows_everything() {
    assert_eq!(plane_window(ramp(6), 3, 2, 0, 0, 3, 2).unwrap().into_tight().unwrap(), ramp(6));
}

#[test]
fn windows_without_source_or_size() {
    assert_eq!(plane_window(Vec::<u8>::new(), 0, 0, 0, 0, 2, 1).unwrap().data, vec![0, 0]);
    let p = plane_window(ramp(6), 3, 2, 0, 0, 0, 5).unwrap();
    assert_eq!((p.width(), p.height(), p.data.len()), (0, 5, 0));
    assert!(matches!(
        plane_window(ramp(6), 3, 2, 0, 0, usize::MAX, 2),
        Err(DecodeError::Bitstream("visible plane dimensions overflow usize"))
    ));
    assert!(matches!(
        plane_window(ramp(6), 3, 2, 0, 0, usize::MAX, 1),
        Err(DecodeError::AllocationFailed { what: "visible image plane", .. })
    ));
}

fn picture(chroma: ChromaFormat) -> NativePlanes<u8> {
    let n = if chroma.is_monochrome() { 0 } else { 4 };
    NativePlanes {
        y: ramp(16),
        cb: ramp(n),
        cr: ramp(n).iter().map(|v| v + 100).collect(),
        width: 4,
        height: 4,
        chroma,
        bit_depth: BitDepth::Eight,
    }
}

#[test]
fn chroma_is_windowed_in_chroma_samples() {
    let crop = HevcVisibleCrop { left: 2, top: 2 };
    let p = visible_native_planes(picture(ChromaFormat::Yuv420), 2, 2, crop).unwrap();
    assert_eq!(p.y.into_tight().unwrap(), vec![10, 11, 14, 15]);
    assert_eq!(p.cb.unwrap().into_tight().unwrap(), vec![3]);
    assert_eq!(p.cr.unwrap().into_tight().unwrap(), vec![103]);
    let mono = visible_native_planes(picture(ChromaFormat::Monochrome), 2, 2, crop).unwrap();
    assert!(mono.cb.is_none() && mono.cr.is_none());
}

#[test]
fn gain_map_frames_are_packed() {
    let crop = HevcVisibleCrop { left: 1, top: 0 };
    let native = NativeYuvPlanes::U8(picture(ChromaFormat::Yuv420));
    assert_eq!(native.dims(), (4, 4));
    assert_eq!(native.bit_depth(), BitDepth::Eight);
    assert_eq!(native.chroma(), ChromaFormat::Yuv420);
    let planes = native_to_visible_buffer(native, 3, 2, crop).unwrap();
    assert!(matches!(planes, YuvBuffer::U8(_)));
    let frame = GainMapFrame {
        planes,
        bit_depth: BitDepth::Eight,
        chroma: ChromaFormat::Yuv420,
        color: ColorMetadata { cicp: None, icc: None },
        orientation: Orientation::Normal,
        metadata: Some(vec![5]),
    };
    assert_eq!((frame.width(), frame.height(), frame.channels()), (3, 2, 3));
    let map = frame.into_packed().unwrap();
    assert_eq!((map.width, map.height, map.chroma_width, map.chroma_height), (3, 2, 2, 1));
    assert_eq!(map.channels(), 3);
    assert!(matches!(map.y, SampleBuf::U8(v) if v == vec![1, 2, 3, 5, 6, 7]));
    assert!(matches!(map.cb, Some(SampleBuf::U8(v)) if v == vec![0, 1]));
    assert_eq!(map.metadata, Some(vec![5]));
}

#[test]
fn tight_planes_are_described() {
    let p = PlaneBuffer::tight(vec![1u16, 2, 3, 4, 5, 6], 3, 2);
    assert_eq!(p.layout, PlaneLayout { width: 3, height: 2, stride: 3, offset: 0 });
    assert_eq!(p.into_tight().unwrap(), vec![1, 2, 3, 4, 5, 6]);
    assert_eq!(BitDepth::from_signalled(10).bits(), 10);
    assert_eq!(BitDepth::from_signalled(12).minus8(), 4);
    assert_eq!(BitDepth::from_signalled(9), BitDepth::Eight);
    assert_eq!((ChromaFormat::Yuv422.sub_w(), ChromaFormat::Yuv422.sub_h()), (2, 1));
}
