use std::cell::RefCell;

use hpvcd::auxiliary::{decode_alpha_plane, decode_gain_map, gain_map_color_metadata};
use hpvcd::codec::{decode_hevc_item, decode_hevc_item_as, decode_hevc_item_native, Codec};
use hpvcd::config::{SliceHeader, SliceType, Sps};
use hpvcd::decode::plan_pixel_grid;
use hpvcd::grid::{
    band_extent_of, decode_native_grid_image, fallback_hvcc, filled_native_grid, optional_auxiliary,
    plan_native_grid, GridGeometry, YuvGridCtx,
};
use hpvcd::heif::{
    GridInfo, HeifFile, HeifGainMap, HeifImageSource, HeifItem, HeifParseOptions,
};
use hpvcd::motion::RefEntry;
use hpvcd::nal::{hvcc_nal_length_size, nal_type_of, next_nal, read_length_prefixed_nal_size};
use hpvcd::rgb_grid::{filled_grid_bands, GridCtx, PixelGeometry};
use hpvcd::tiles::Pps;
use hpvcd::yuv::{NativePlanes, NativeYuvPlanes, YuvPlanes};
use hpvcd::{
    decode_heic, decode_heic_rgb8, decode_heic_rgb8_with_settings, decode_heic_with_settings,
    decode_heic_yuv, decode_heic_yuv_with_settings, BitDepth, ChromaFormat, Cicp, ColorMetadata,
    DecodeError, Decoder, HeicSettings, ImageBuffer, MatrixCoefficients, Orientation, ParseLimits,
    Primaries, SampleBuf, TransferFunction, YuvBuffer,
};

/// A picture in which the sample at (x, y) is `seed + x + 10 * y`.
struct Picture {
    seed: u16,
    sps: Sps,
}

/// Components that paint ramps and keep a record of what they are asked.
struct Painter {
    scene: fn() -> HeifFile,
    by_rows: bool,
    record: RefCell<Vec<String>>,
}

impl Painter {
    fn new(scene: fn() -> HeifFile) -> Self {
        Painter { scene, by_rows: false, record: RefCell::new(vec![]) }
    }

    fn note(&self, what: String) {
        self.record.borrow_mut().push(what);
    }
}

fn plain() -> ColorMetadata {
    ColorMetadata { cicp: None, icc: None }
}

/// A configuration record: size, margins, depth, sampling and matrix of the sequence.
fn record(w: u8, h: u8, left: u8, top: u8, depth: u8, sampling: u8, matrix: u8) -> Vec<u8> {
    let mut v = vec![w, h, left, top, depth, sampling, matrix, 0];
    v.resize(21, 0);
    v.push(0b1111_1100);
    v
}

fn item(data_offset: u64, data_length: u64, hvcc: Vec<u8>, w: u32, h: u32) -> HeifItem {
    HeifItem {
        data_offset,
        data_length,
        hvcc,
        display_w: w,
        display_h: h,
        color: plain(),
        orientation: Orientation::Normal,
        clap: None,
        pasp: None,
        cll: None,
    }
}

fn single(primary: HeifItem) -> HeifFile {
    HeifFile { primary, grid: None, alpha: None, gain_map: None, exif: Some(vec![9, 9]) }
}

const FIRST: u8 = 1;
const DEPENDENT: u8 = 2;
const PREDICTED: u8 = 4;
const ENTRIES: u8 = 8;

/// A NAL unit with a length field of one byte.
fn nal(kind: u8, flags: u8, seed: u8) -> Vec<u8> {
    vec![4, kind << 1, 1, flags, seed]
}

impl Codec for Painter {
    type Picture = Picture;

    fn container(
        &self,
        file: &[u8],
        limits: &ParseLimits,
        options: HeifParseOptions,
    ) -> Result<HeifFile, DecodeError> {
        self.note(format!(
            "container {} {} {} {}",
            file.len(),
            limits.max_dimension,
            options.load_alpha,
            options.load_gain_map
        ));
        Ok((self.scene)())
    }

    fn param_sets(&self, hvcc: &[u8]) -> Result<(Sps, Pps), DecodeError> {
        if hvcc.len() < 8 {
            return Err(DecodeError::ParamSet("broken record"));
        }
        let sps = Sps {
            width: hvcc[0] as u32,
            height: hvcc[1] as u32,
            crop_left: hvcc[2] as u32,
            crop_right: 0,
            crop_top: hvcc[3] as u32,
            crop_bottom: 0,
            chroma: match hvcc[5] {
                0 => ChromaFormat::Monochrome,
                1 => ChromaFormat::Yuv420,
                _ => ChromaFormat::Yuv444,
            },
            bit_depth_luma: hvcc[4],
            color_primaries: 1,
            transfer_characteristics: 13,
            matrix_coefficients: hvcc[6],
            video_full_range: true,
            curr_pic_ref_enabled: hvcc[7] == 1,
        };
        let mut pps = Pps::untiled();
        pps.curr_pic_ref_enabled = hvcc[7] == 1;
        Ok((sps, pps))
    }

    fn unescape(&self, nal: &[u8]) -> Vec<u8> {
        nal[2..].to_vec()
    }

    fn slice_header(
        &self,
        rbsp: &[u8],
        _sps: &Sps,
        _pps: &Pps,
        nal_type: u8,
    ) -> Result<SliceHeader, DecodeError> {
        self.note(format!("header {} {:?}", nal_type, rbsp));
        if rbsp[1] == 255 {
            return Err(DecodeError::Unsupported("slice"));
        }
        Ok(SliceHeader {
            first_slice_in_pic: rbsp[0] & FIRST != 0,
            dependent_slice_segment: rbsp[0] & DEPENDENT != 0,
            slice_segment_address: 7,
            slice_type: if rbsp[0] & PREDICTED != 0 { SliceType::P } else { SliceType::I },
            cabac_offset: 1,
            entry_points: if rbsp[0] & ENTRIES != 0 { vec![3] } else { vec![] },
            num_ref_idx_l0: 1,
            num_ref_idx_l1: 0,
            list_mod_l0: vec![],
            list_mod_l1: vec![],
        })
    }

    fn substreams(&self, nal: &[u8], _hdr: &SliceHeader, rbsp_len: usize) -> Vec<usize> {
        self.note(format!("substreams {} {}", nal.len(), rbsp_len));
        vec![0, 1]
    }

    fn reference_lists(
        &self,
        current: RefEntry,
        _hdr: &SliceHeader,
    ) -> Result<(Vec<RefEntry>, Vec<RefEntry>), DecodeError> {
        self.note(format!("lists {} {}", current.poc, current.long_term));
        Ok((vec![current], vec![]))
    }

    fn start(
        &self,
        cabac: &[u8],
        sps: &Sps,
        _pps: &Pps,
        _hdr: &SliceHeader,
    ) -> Result<Picture, DecodeError> {
        self.note(format!("start {:?}", cabac));
        if cabac[0] == 254 {
            return Err(DecodeError::AllocationFailed { what: "picture", bytes: 1 });
        }
        Ok(Picture { seed: cabac[0] as u16, sps: *sps })
    }

    fn set_references(
        &self,
        picture: Picture,
        list0: Vec<RefEntry>,
        list1: Vec<RefEntry>,
    ) -> Picture {
        self.note(format!("references {} {}", list0.len(), list1.len()));
        picture
    }

    fn wavefront(
        &self,
        picture: Picture,
        rbsp: &[u8],
        nal: &[u8],
        _hdr: &SliceHeader,
    ) -> Result<(Picture, bool), DecodeError> {
        self.note(format!("rows {} {}", rbsp.len(), nal.len()));
        Ok((picture, self.by_rows))
    }

    fn slice(
        &self,
        picture: Picture,
        address: usize,
        starts: Option<(&[u8], &[usize])>,
    ) -> Result<Picture, DecodeError> {
        self.note(format!("slice {} {:?}", address, starts));
        Ok(picture)
    }

    fn segment(
        &self,
        picture: Picture,
        cabac: &[u8],
        _hdr: &SliceHeader,
        starts: &[usize],
    ) -> Result<Picture, DecodeError> {
        self.note(format!("segment {:?} {:?}", cabac, starts));
        Ok(Picture { seed: picture.seed + cabac[0] as u16, sps: picture.sps })
    }

    fn finish_wide(&self, picture: Picture, parallel: bool) -> Result<YuvPlanes, DecodeError> {
        self.note(format!("finish {}", parallel));
        let s = picture.sps;
        let (w, h) = (s.width as usize, s.height as usize);
        let ramp = |w: usize, h: usize, add: u16| -> Vec<u16> {
            (0..h)
                .flat_map(|y| (0..w).map(move |x| (x + 10 * y) as u16 + add))
                .collect()
        };
        let (cw, ch) = match s.chroma {
            ChromaFormat::Monochrome => (0, 0),
            ChromaFormat::Yuv420 => (w.div_ceil(2), h.div_ceil(2)),
            _ => (w, h),
        };
        Ok(NativePlanes {
            y: ramp(w, h, picture.seed),
            cb: ramp(cw, ch, picture.seed + 50),
            cr: ramp(cw, ch, picture.seed + 100),
            width: w,
            height: h,
            chroma: s.chroma,
            bit_depth: BitDepth::from_signalled(s.bit_depth_luma),
        })
    }

    fn finish_native(
        &self,
        picture: Picture,
        parallel: bool,
    ) -> Result<NativeYuvPlanes, DecodeError> {
        let wide = self.finish_wide(picture, parallel)?;
        if wide.bit_depth != BitDepth::Eight {
            return Ok(NativeYuvPlanes::U16(wide));
        }
        let narrow = |v: Vec<u16>| -> Vec<u8> { v.into_iter().map(|s| s as u8).collect() };
        Ok(NativeYuvPlanes::U8(NativePlanes {
            y: narrow(wide.y),
            cb: narrow(wide.cb),
            cr: narrow(wide.cr),
            width: wide.width,
            height: wide.height,
            chroma: wide.chroma,
            bit_depth: wide.bit_depth,
        }))
    }

    fn to_rgb(
        &self,
        planes: &YuvPlanes,
        width: usize,
        height: usize,
        left: usize,
        top: usize,
        color: &Cicp,
        parallel: bool,
    ) -> Result<ImageBuffer, DecodeError> {
        self.note(format!("rgb {} {} {:?} {}", left, top, color.matrix, parallel));
        let mut samples = vec![];
        let channels = if planes.chroma == ChromaFormat::Monochrome { 1 } else { 3 };
        for y in 0..height {
            for x in 0..width {
                let sx = (left + x).min(planes.width - 1);
                let sy = (top + y).min(planes.height - 1);
                for c in 0..channels {
                    samples.push(planes.y[sy * planes.width + sx] + c);
                }
            }
        }
        let narrow = |v: Vec<u16>| -> Vec<u8> { v.into_iter().map(|s| s as u8).collect() };
        Ok(match (planes.bit_depth, channels) {
            (BitDepth::Eight, 1) => ImageBuffer::Luma8(narrow(samples)),
            (BitDepth::Eight, _) => ImageBuffer::Rgb8(narrow(samples)),
            (_, 1) => ImageBuffer::Luma16(samples),
            _ => ImageBuffer::Rgb16(samples),
        })
    }
}

fn bitstream<T>(r: Result<T, DecodeError>) -> &'static str {
    match r {
        Err(DecodeError::Bitstream(what)) => what,
        _ => "",
    }
}

fn nothing() -> HeifFile {
    single(item(0, 0, vec![], 0, 0))
}

#[test]
fn units_follow_their_lengths() {
    assert_eq!(hvcc_nal_length_size(&record(1, 1, 0, 0, 8, 0, 1)).unwrap(), 1);
    assert!(matches!(
        hvcc_nal_length_size(&[0; 21]),
        Err(DecodeError::ParamSet("hvcC too short for NAL length size"))
    ));
    let mut pos = 1;
    assert_eq!(read_length_prefixed_nal_size(&[9, 1, 2, 3, 9], &mut pos, 3).unwrap(), 0x010203);
    assert_eq!(pos, 4);
    assert_eq!(
        bitstream(read_length_prefixed_nal_size(&[9], &mut pos, 3)),
        "truncated HEIF NAL length prefix"
    );
    let mut far = usize::MAX;
    assert_eq!(
        bitstream(read_length_prefixed_nal_size(&[9], &mut far, 1)),
        "NAL length offset overflows usize"
    );
    let sample = [0, 2, 0x26, 1, 0, 3, 0x40, 1, 7];
    assert_eq!(next_nal(&sample, 0, 2).unwrap(), (2, 4));
    assert_eq!(next_nal(&sample, 4, 2).unwrap(), (6, 9));
    assert_eq!(bitstream(next_nal(&[1, 0], 0, 1)), "HEIF sample contains an undersized NAL unit");
    assert_eq!(bitstream(next_nal(&[3, 0, 0], 0, 1)), "truncated HEIF NAL payload");
    assert_eq!((nal_type_of(0x26), nal_type_of(0xff)), (19, 63));
}

#[test]
fn slices_are_collected_before_they_are_decoded() {
    let codec = Painter::new(nothing);
    let hvcc = record(2, 2, 0, 0, 8, 0, 1);
    let mut sample = nal(40, 0, 0);
    sample.extend(nal(19, FIRST, 3));
    sample.extend(nal(19, ENTRIES, 4));
    let (picture, color) = decode_hevc_item_as(&codec, &sample, &hvcc, true).unwrap();
    assert_eq!(picture.seed, 7);
    assert_eq!(color.matrix, MatrixCoefficients::Code(1));
    assert_eq!(
        *codec.record.borrow(),
        vec![
            "header 19 [1, 3]",
            "header 19 [8, 4]",
            "start [3]",
            "slice 7 None",
            "substreams 4 2",
            "segment [4] [0, 1]",
        ]
    );
}

#[test]
fn single_intra_slice_is_decoded_by_rows_if_possible() {
    let hvcc = record(2, 2, 0, 0, 8, 0, 1);
    let sample = nal(19, FIRST | ENTRIES, 3);
    let mut codec = Painter::new(nothing);
    decode_hevc_item(&codec, &sample, &hvcc, true).unwrap();
    assert_eq!(
        *codec.record.borrow(),
        vec![
            "header 19 [9, 3]",
            "start [3]",
            "substreams 4 2",
            "rows 2 4",
            "slice 7 Some(([3], [0, 1]))",
            "finish true",
        ]
    );
    codec = Painter::new(nothing);
    codec.by_rows = true;
    decode_hevc_item(&codec, &sample, &hvcc, true).unwrap();
    assert!(!codec.record.borrow().iter().any(|s| s.starts_with("slice")));
    codec = Painter::new(nothing);
    decode_hevc_item(&codec, &sample, &hvcc, false).unwrap();
    assert!(!codec.record.borrow().iter().any(|s| s.starts_with("rows")));
    codec = Painter::new(nothing);
    decode_hevc_item(&codec, &nal(19, FIRST | PREDICTED, 3), &hvcc, true).unwrap();
    assert!(!codec.record.borrow().iter().any(|s| s.starts_with("rows")));
}

#[test]
fn self_reference_is_installed_for_independent_segments() {
    let codec = Painter::new(nothing);
    let mut hvcc = record(2, 2, 0, 0, 8, 0, 1);
    hvcc[7] = 1;
    let mut sample = nal(1, FIRST | PREDICTED, 3);
    sample.extend(nal(1, DEPENDENT, 1));
    sample.extend(nal(1, PREDICTED, 1));
    decode_hevc_item_as(&codec, &sample, &hvcc, true).unwrap();
    let record = codec.record.borrow();
    let lists: Vec<usize> = (0..record.len()).filter(|&i| record[i] == "lists 0 true").collect();
    assert_eq!(lists, vec![4, 8]);
    assert_eq!(record[5], "references 1 0");
    assert_eq!(record[7], "segment [1] []");
}

#[test]
fn items_that_are_no_single_picture_fail() {
    let codec = Painter::new(nothing);
    let hvcc = record(2, 2, 0, 0, 8, 0, 1);
    let decode = |sample: Vec<u8>| bitstream(decode_hevc_item_as(&codec, &sample, &hvcc, true));
    assert_eq!(decode(nal(33, 0, 0)), "no VCL slice NAL found");
    assert_eq!(
        decode(nal(1, 0, 0)),
        "HEIF item does not begin with an independent first slice"
    );
    assert_eq!(
        decode(nal(1, FIRST | DEPENDENT, 0)),
        "HEIF item does not begin with an independent first slice"
    );
    let mut two = nal(1, FIRST, 0);
    two.extend(nal(1, FIRST, 0));
    assert_eq!(decode(two), "HEIF image item contains more than one coded picture");
    assert!(matches!(
        decode_hevc_item_native(&codec, &nal(1, FIRST, 255), &hvcc, true),
        Err(DecodeError::Unsupported("slice"))
    ));
    assert!(matches!(
        decode_hevc_item_native(&codec, &[], &[], true),
        Err(DecodeError::ParamSet("broken record"))
    ));
}

/// The bytes of four items.
fn file() -> Vec<u8> {
    [3, 40, 80, 120].iter().flat_map(|&seed| nal(19, FIRST, seed)).collect()
}

fn cropped() -> HeifFile {
    let mut primary = item(0, 5, record(5, 4, 1, 2, 8, 1, 9), 4, 2);
    primary.orientation = Orientation::Rotate90;
    single(primary)
}

#[test]
fn planes_show_the_visible_part() {
    let out = decode_heic_yuv(Painter::new(cropped), &file()).unwrap();
    assert_eq!((out.width(), out.height()), (4, 2));
    assert_eq!((out.bit_depth, out.chroma), (BitDepth::Eight, ChromaFormat::Yuv420));
    assert_eq!(out.orientation, Orientation::Rotate90);
    assert_eq!(out.exif, Some(vec![9, 9]));
    let planes = match out.planes {
        YuvBuffer::U8(p) => p,
        YuvBuffer::U16(_) => panic!("8-bit planes expected"),
    };
    assert_eq!(planes.y.data.len(), 20);
    assert_eq!(planes.y.into_tight().unwrap(), vec![24, 25, 26, 27, 34, 35, 36, 37]);
    assert_eq!(planes.cb.unwrap().into_tight().unwrap(), vec![63, 64]);
    assert_eq!(planes.cr.unwrap().into_tight().unwrap(), vec![113, 114]);
}

#[test]
fn pixels_are_converted_and_turned() {
    let codec = Painter::new(cropped);
    let decoder = Decoder::new(codec);
    let out = decoder.decode(&file()).unwrap();
    assert_eq!((out.width, out.height), (2, 4));
    assert!(matches!(&out.pixels, ImageBuffer::Rgb8(v) if v.len() == 24
        && v[..6] == [34, 35, 36, 24, 25, 26]));
    let record = decoder.codec.record.borrow();
    assert_eq!(record[0], "container 20 16384 true true");
    assert_eq!(record[record.len() - 1], "rgb 1 2 Code(9) true");
}

fn unspecified() -> HeifFile {
    let mut heif = single(item(5, 5, record(2, 1, 0, 0, 10, 0, 2), 2, 1));
    heif.primary.color = ColorMetadata {
        cicp: Some(Cicp {
            primaries: Primaries(9),
            transfer: TransferFunction(16),
            matrix: MatrixCoefficients::Code(9),
            full_range: false,
        }),
        icc: Some(vec![1]),
    };
    heif
}

#[test]
fn unspecified_matrix_falls_back_to_the_item() {
    let decoder = Decoder::new(Painter::new(unspecified));
    let out = decoder.decode(&file()).unwrap();
    assert!(matches!(out.pixels, ImageBuffer::Luma16(v) if v == vec![40, 41]));
    assert_eq!(out.bit_depth, BitDepth::Ten);
    assert!(out.color.cicp.is_some() && out.color.icc == Some(vec![1]));
    assert!(decoder.codec.record.borrow().iter().any(|s| s == "rgb 0 0 Code(9) true"));
    let rgb = decode_heic_rgb8(Painter::new(unspecified), &file()).unwrap();
    assert_eq!(rgb.pixels, vec![10, 10, 10, 10, 10, 10]);
    assert_eq!((rgb.width, rgb.height), (2, 1));
}

fn outside() -> HeifFile {
    single(item(16, 5, record(2, 1, 0, 0, 8, 0, 1), 2, 1))
}

fn beyond() -> HeifFile {
    single(item(u64::MAX, 1, record(2, 1, 0, 0, 8, 0, 1), 2, 1))
}

#[test]
fn missing_data_and_limits_are_reported() {
    assert_eq!(
        bitstream(decode_heic(Painter::new(outside), &file())),
        "image data extends past file end"
    );
    assert_eq!(
        bitstream(decode_heic(Painter::new(beyond), &file())),
        "image data offset/length overflows usize"
    );
    assert_eq!(
        bitstream(decode_heic_yuv(Painter::new(beyond), &file())),
        "image data range overflows usize"
    );
    let mut limits = ParseLimits::new();
    limits.max_dimension = 3;
    let settings = HeicSettings::new().with_limits(limits);
    assert!(matches!(
        decode_heic_with_settings(Painter::new(cropped), &file(), &settings),
        Err(DecodeError::LimitExceeded { .. })
    ));
    assert!(matches!(
        decode_heic_yuv_with_settings(Painter::new(cropped), &file(), &settings),
        Err(DecodeError::LimitExceeded { .. })
    ));
    assert!(matches!(
        decode_heic(Painter::new(nothing), &file()),
        Err(DecodeError::ParamSet("broken record"))
    ));
}

fn dressed() -> HeifFile {
    let mut heif = single(item(0, 5, record(2, 2, 0, 0, 8, 1, 1), 2, 2));
    heif.alpha = Some(item(5, 5, record(3, 3, 1, 1, 8, 0, 1), 0, 0));
    let mut gain = item(10, 5, record(3, 2, 0, 0, 8, 0, 1), 0, 0);
    gain.orientation = Orientation::FlipH;
    heif.gain_map = Some(HeifGainMap {
        image: HeifImageSource::Item(gain),
        metadata: Some(vec![4, 2]),
    });
    heif
}

#[test]
fn auxiliary_images_come_with_the_image() {
    let out = decode_heic(Painter::new(dressed), &file()).unwrap();
    assert!(matches!(out.alpha, Some(SampleBuf::U8(v)) if v == vec![51, 52, 61, 62]));
    let gain = out.gain_map.unwrap();
    assert_eq!((gain.width, gain.height, gain.channels()), (3, 2, 1));
    assert!(matches!(gain.y, SampleBuf::U8(v) if v == vec![82, 81, 80, 92, 91, 90]));
    assert_eq!(gain.metadata, Some(vec![4, 2]));
    assert_eq!(gain.color.cicp.unwrap().matrix, MatrixCoefficients::Code(1));
    let planes = decode_heic_yuv(Painter::new(dressed), &file()).unwrap();
    let gain = planes.gain_map.unwrap().into_packed().unwrap();
    assert!(matches!(gain.y, SampleBuf::U8(v) if v == vec![80, 81, 82, 90, 91, 92]));
    assert!(planes.alpha.is_some());
}

#[test]
fn settings_switch_auxiliary_images_off() {
    let settings = HeicSettings::new().primary_only();
    let out = decode_heic_with_settings(Painter::new(dressed), &file(), &settings).unwrap();
    assert!(out.alpha.is_none() && out.gain_map.is_none());
    let decoder =
        Decoder::from_settings(Painter::new(dressed), HeicSettings::new().with_decode_alpha(false));
    let out = decoder.decode_yuv(&file()).unwrap();
    assert!(out.alpha.is_none() && out.gain_map.is_some());
    assert_eq!(decoder.codec.record.borrow()[0], "container 20 16384 false true");
    let decoder = Decoder::new(Painter::new(dressed));
    decoder.decode_rgb8(&file()).unwrap();
    assert_eq!(decoder.codec.record.borrow()[0], "container 20 16384 false false");
    assert_eq!(
        decode_heic_rgb8_with_settings(Painter::new(dressed), &file(), &settings).unwrap().pixels,
        vec![3, 4, 5, 4, 5, 6, 13, 14, 15, 14, 15, 16]
    );
}

#[test]
fn broken_auxiliary_images_count_as_absent() {
    let codec = Painter::new(dressed);
    let mut heif = dressed();
    let mut data = file();
    data[9] = 255;
    data[14] = 255;
    assert!(decode_alpha_plane(&codec, &data, &heif, 2, 2).unwrap().is_none());
    assert!(decode_gain_map(&codec, &ParseLimits::new(), &data, &heif, true).unwrap().is_none());
    data[9] = 254;
    assert!(matches!(
        decode_alpha_plane(&codec, &data, &heif, 2, 2),
        Err(DecodeError::AllocationFailed { what: "picture", .. })
    ));
    heif.alpha = Some(item(18, 5, record(3, 3, 1, 1, 8, 0, 1), 0, 0));
    assert!(decode_alpha_plane(&codec, &data, &heif, 2, 2).unwrap().is_none());
    heif.alpha = Some(item(5, 5, vec![], 0, 0));
    assert!(decode_alpha_plane(&codec, &data, &heif, 2, 2).unwrap().is_none());
    heif.alpha = None;
    assert!(decode_alpha_plane(&codec, &data, &heif, 2, 2).unwrap().is_none());
    assert!(matches!(optional_auxiliary(Ok(3)), Ok(Some(3))));
    let missing: Result<u8, DecodeError> = Err(DecodeError::MissingBox("box"));
    assert!(matches!(optional_auxiliary(missing), Ok(None)));
}

#[test]
fn gain_maps_prefer_the_colour_of_the_sequence() {
    let mut vui = Cicp::srgb();
    let color = gain_map_color_metadata(&plain(), vui);
    assert_eq!(color.cicp, Some(vui));
    vui.matrix = MatrixCoefficients::Unspecified;
    assert!(gain_map_color_metadata(&plain(), vui).cicp.is_none());
}

/// Two columns and two rows of 4x2 tiles behind a margin, cut to 7x3. The last tile is missing.
fn tiled() -> HeifFile {
    let mut heif = nothing();
    let mut tiles: Vec<HeifItem> = vec![];
    for i in 0..3 {
        let hvcc = if i == 1 { record(5, 3, 1, 1, 8, 1, 1) } else { vec![] };
        tiles.push(item(5 * i, 5, hvcc, 0, 0));
    }
    heif.grid = Some(GridInfo {
        output_width: 7,
        output_height: 3,
        cols: 2,
        rows: 2,
        tiles,
        color: plain(),
        orientation: Orientation::Rotate180,
    });
    heif
}

#[test]
fn tiles_are_stitched_into_planes() {
    let out = decode_heic_yuv(Painter::new(tiled), &file()).unwrap();
    assert_eq!((out.width(), out.height(), out.orientation), (7, 3, Orientation::Rotate180));
    let planes = match out.planes {
        YuvBuffer::U8(p) => p,
        YuvBuffer::U16(_) => panic!("8-bit planes expected"),
    };
    assert_eq!(
        planes.y.into_tight().unwrap(),
        vec![
            14, 15, 16, 17, 51, 52, 53,
            24, 25, 26, 27, 61, 62, 63,
            91, 92, 93, 94, 0, 0, 0,
        ]
    );
    assert_eq!(
        planes.cb.unwrap().into_tight().unwrap(),
        vec![53, 54, 90, 91, 130, 131, 0, 0]
    );
}

#[test]
fn tiles_are_stitched_into_pixels() {
    let decoder = Decoder::new(Painter::new(tiled));
    let out = decoder.decode(&file()).unwrap();
    let pixels = match out.pixels {
        ImageBuffer::Rgb8(v) => v,
        _ => panic!("8-bit pixels expected"),
    };
    let first: Vec<u8> = pixels.chunks(3).map(|p| p[0]).collect();
    assert_eq!(
        first,
        vec![
            0, 0, 0, 94, 93, 92, 91,
            63, 62, 61, 27, 26, 25, 24,
            53, 52, 51, 17, 16, 15, 14,
        ]
    );
    assert!(decoder.codec.record.borrow().iter().any(|s| s == "rgb 1 1 Code(1) false"));
    assert!(!decoder.codec.record.borrow().iter().any(|s| s.starts_with("rows")));
}

#[test]
fn broken_tiles_stay_blank() {
    let mut data = file();
    data[9] = 255;
    let out = decode_heic_yuv(Painter::new(tiled), &data).unwrap();
    match out.planes {
        YuvBuffer::U8(p) => assert_eq!(
            p.y.into_tight().unwrap(),
            vec![
                14, 15, 16, 17, 0, 0, 0,
                24, 25, 26, 27, 0, 0, 0,
                91, 92, 93, 94, 0, 0, 0,
            ]
        ),
        YuvBuffer::U16(_) => panic!("8-bit planes expected"),
    }
    data[9] = 254;
    assert!(matches!(
        decode_heic(Painter::new(tiled), &data),
        Err(DecodeError::AllocationFailed { what: "picture", .. })
    ));
}

fn grid() -> GridInfo {
    tiled().grid.unwrap()
}

#[test]
fn unusable_grids_are_reported() {
    let codec = Painter::new(tiled);
    let limits = ParseLimits::new();
    let data = file();
    let stitch = |g: &GridInfo| decode_native_grid_image(&codec, &limits, &data, g);
    assert_eq!(fallback_hvcc(&grid().tiles)[0], 5);
    let mut g = grid();
    g.tiles.clear();
    assert_eq!(bitstream(stitch(&g)), "grid has no tiles");
    g.tiles.push(item(0, 5, vec![], 0, 0));
    assert!(matches!(stitch(&g), Err(DecodeError::MissingBox("grid hvcC property"))));
    g.tiles[0].hvcc = vec![1];
    assert!(matches!(stitch(&g), Err(DecodeError::ParamSet("broken record"))));
    g.output_width = 0;
    assert!(matches!(stitch(&g), Err(DecodeError::BadDimensions { w: 0, h: 3 })));
    let settings = HeicSettings::new();
    let display = |g: &GridInfo| {
        hpvcd::decode::decode_grid(&codec, &settings, &data, g, &nothing(), true)
    };
    assert_eq!(bitstream(display(&g)), "grid has zero size or no tiles");
    g = grid();
    g.tiles[1].hvcc = vec![];
    g.cols = 0;
    assert_eq!(bitstream(display(&g)), "cannot determine tile dimensions");
    assert_eq!((band_extent_of(7, 4, 0), band_extent_of(7, 4, 1), band_extent_of(7, 4, 2)), (4, 3, 0));
}

#[test]
fn tiles_without_a_sequence_have_the_announced_size() {
    let codec = Painter::new(tiled);
    let settings = HeicSettings::new();
    let mut g = grid();
    g.orientation = Orientation::Normal;
    g.tiles[0].hvcc = vec![1];
    g.tiles[0].display_w = 4;
    g.tiles[0].display_h = 2;
    let out = hpvcd::decode::decode_grid(&codec, &settings, &file(), &g, &nothing(), true).unwrap();
    let pixels = match out.pixels {
        ImageBuffer::Rgb8(v) => v,
        _ => panic!("8-bit pixels expected"),
    };
    let first: Vec<u8> = pixels.chunks(3).map(|p| p[0]).collect();
    assert_eq!(first[..7], [0, 0, 0, 0, 40, 41, 42]);
    assert_eq!(first[14..], [0, 0, 0, 0, 0, 0, 0]);
}

fn gain_grid() -> HeifFile {
    let mut heif = dressed();
    let mut g = grid();
    g.tiles[1].color.icc = Some(vec![8]);
    heif.gain_map = Some(HeifGainMap { image: HeifImageSource::Grid(g), metadata: None });
    heif
}

#[test]
fn gain_maps_may_be_tiled() {
    let out = decode_heic(Painter::new(gain_grid), &file()).unwrap();
    let gain = out.gain_map.unwrap();
    assert_eq!((gain.width, gain.height, gain.chroma_width, gain.chroma_height), (7, 3, 4, 2));
    assert!(matches!(&gain.y, SampleBuf::U8(v) if v[..4] == [0, 0, 0, 94]));
    assert!(matches!(&gain.cb, Some(SampleBuf::U8(v)) if v[..4] == [0, 0, 131, 130]));
    assert_eq!(gain.color.icc, Some(vec![8]));
}

#[test]
fn tiles_fill_the_room_there_is() {
    let codec = Painter::new(nothing);
    let data = file();
    let grid = tiled().grid.unwrap();
    let fallback = fallback_hvcc(&grid.tiles);
    let ctx = GridCtx {
        file: &data,
        tiles: &grid.tiles,
        fallback_hvcc: &fallback,
        color_enc: Cicp::srgb(),
        geo: PixelGeometry {
            cols: 2,
            out_w: 7,
            out_h: 3,
            tile_w: 4,
            tile_h: 2,
            tile_crop_left: 1,
            tile_crop_top: 1,
            channels: 3,
        },
    };
    let pixels: Vec<u8> = filled_grid_bands(&codec, 2, &ctx, Ok(vec![7; 63])).unwrap();
    let first: Vec<u8> = pixels.chunks(3).map(|p| p[0]).collect();
    assert_eq!(
        first,
        vec![
            14, 15, 16, 17, 51, 52, 53,
            24, 25, 26, 27, 61, 62, 63,
            91, 92, 93, 94, 7, 7, 7,
        ]
    );
    let none: Result<Vec<u8>, DecodeError> = Err(DecodeError::Bitstream("no room"));
    assert_eq!(bitstream(filled_grid_bands(&codec, 2, &ctx, none)), "no room");
}

#[test]
fn tiles_fill_the_planes_there_are() {
    let codec = Painter::new(nothing);
    let data = file();
    let grid = tiled().grid.unwrap();
    let fallback = fallback_hvcc(&grid.tiles);
    let ctx = YuvGridCtx {
        file: &data,
        tiles: &grid.tiles,
        fallback_hvcc: &fallback,
        geo: GridGeometry {
            cols: 2,
            out_w: 7,
            out_h: 3,
            cw: 4,
            ch: 2,
            tile_w: 4,
            tile_h: 2,
            tile_cw: 2,
            tile_ch: 1,
            tile_crop_left: 1,
            tile_crop_top: 1,
            sub_w: 2,
            sub_h: 2,
            has_chroma: true,
        },
    };
    let image = filled_native_grid(&codec, 2, &ctx, vec![7u8; 21], vec![7; 8], vec![7; 8]).unwrap();
    assert_eq!(image.y.data[14..], [91, 92, 93, 94, 7, 7, 7]);
    assert_eq!(image.cb.unwrap().data, vec![53, 54, 90, 91, 130, 131, 7, 7]);
}

#[test]
fn packed_rgb_is_the_packed_image() {
    let full = decode_heic(Painter::new(dressed), &file()).unwrap();
    let primary = HeicSettings::new().primary_only();
    let alone = decode_heic_with_settings(Painter::new(dressed), &file(), &primary).unwrap();
    let packed = decode_heic_rgb8(Painter::new(dressed), &file()).unwrap();
    assert_eq!((packed.width, packed.height), (full.width, full.height));
    assert_eq!((packed.width, packed.height), (alone.width, alone.height));
    assert_eq!(packed.pixels.len(), 12);
    assert!(matches!(&full.pixels, ImageBuffer::Rgb8(v) if *v == packed.pixels));
    assert!(matches!(&alone.pixels, ImageBuffer::Rgb8(v) if *v == packed.pixels));
    let again = decode_heic_rgb8_with_settings(Painter::new(dressed), &file(), &primary).unwrap();
    assert_eq!(again.pixels, packed.pixels);
}

#[test]
fn packed_rgb_fails_alike_for_all_settings() {
    let primary = HeicSettings::new().primary_only();
    let a = bitstream(decode_heic_rgb8(Painter::new(beyond), &file()));
    let b = bitstream(decode_heic_rgb8_with_settings(Painter::new(beyond), &file(), &primary));
    assert_eq!(a, b);
}

fn upright() -> HeifFile {
    let mut heif = cropped();
    heif.primary.orientation = Orientation::Normal;
    heif
}

#[test]
fn planes_are_not_turned() {
    let a = decode_heic_yuv(Painter::new(cropped), &file()).unwrap();
    let b = decode_heic_yuv(Painter::new(upright), &file()).unwrap();
    assert_eq!((a.orientation, b.orientation), (Orientation::Rotate90, Orientation::Normal));
    match (a.planes, b.planes) {
        (YuvBuffer::U8(p), YuvBuffer::U8(q)) => {
            assert_eq!(p.y.layout, q.y.layout);
            assert_eq!(p.y.data, q.y.data);
            assert_eq!(p.cb.unwrap().data, q.cb.unwrap().data);
        }
        _ => panic!("8-bit planes expected"),
    }
}

#[test]
fn plans_say_how_tiles_lie() {
    let codec = Painter::new(nothing);
    let heif = tiled();
    let mut grid = tiled().grid.unwrap();
    let limits = ParseLimits::new();
    let plan = plan_native_grid(&codec, &limits, &grid).unwrap();
    assert_eq!((plan.geo.tile_w, plan.geo.tile_h, plan.geo.cw, plan.geo.ch), (4, 2, 4, 2));
    assert_eq!((plan.geo.tile_crop_left, plan.geo.has_chroma), (1, true));
    assert_eq!(plan.fallback, record(5, 3, 1, 1, 8, 1, 1));
    let plan = plan_pixel_grid(&codec, &limits, &grid, &heif).unwrap();
    assert_eq!((plan.geo.tile_w, plan.geo.tile_h, plan.geo.channels), (4, 2, 3));
    assert_eq!((plan.format.depth, plan.format.mono), (BitDepth::Eight, false));
    grid.tiles.clear();
    assert_eq!(bitstream(plan_native_grid(&codec, &limits, &grid)), "grid has no tiles");
    assert_eq!(
        bitstream(plan_pixel_grid(&codec, &limits, &grid, &heif)),
        "grid has zero size or no tiles"
    );
}
