//! The decode entry points.
use vstd::prelude::*;
use vstd::slice::slice_subrange;
use crate::auxiliary::{
    crops, decode_alpha_plane, decode_alpha_plane_native, decode_gain_map, decode_gain_map_frame,
    decodes_alpha, decodes_gain_frame, decodes_gain_map, decodes_tight_alpha, option_orientable,
    visible_crop_from_hvcc,
};
use crate::codec::{
    configures, decode_hevc_item, decode_hevc_item_native, decodes_native, decodes_wide, Codec,
};
use crate::color::{bytes_view, copy_bytes, Cicp, ColorMetadata, MatrixCoefficients};
use crate::config::Sps;
use crate::error::DecodeError;
use crate::formats::{
    ceil_div, div_ceil, BitDepth, ChromaFormat, ImageBuffer, Pixels, SampleBuf, SamplePlane,
    YuvBuffer,
};
use crate::grid::{
    decode_native_grid_image, decodes_native_grid, fallback_hvcc, first_hvcc, grid_images_are_tight,
    lemma_ceil_div_positive, NativeGridImage,
};
use crate::heif::{ExtentMessages, GridInfo, HeifFile, HeifItem, HeifParseOptions};
use crate::image::{opt_samples, DecodedImage, DecodedYuv, GainMap, GainMapFrame, Rgb8Image};
use crate::limits::ParseLimits;
use crate::metadata::Orientation;
use crate::orientation::{
    apply_orientation, can_orient, image_fails, needs_memory, orientable, oriented_option,
    oriented_size, OrientedImage,
};
use crate::rgb8::{is_rgb8, rgb8, rgb8_len, three_bytes_per_pixel, to_rgb8};
use crate::rgb_grid::{
    composed_pixels_are_complete, converts, fill_grid_bands, GridCtx, PixelGeometry, PixelGrid,
    PixelSample,
};
use crate::sample::no_memory;
use crate::settings::HeicSettings;
use crate::tiles::Pps;
use crate::window::{
    buffer_shows, native_to_visible_buffer, picture_fails, picture_too_large, HevcVisibleCrop,
};
use crate::yuv::{NativeYuvPlanes, YuvPlanes};

verus! {

/// A decoder: settings and the components that it rests on.
pub struct Decoder<C> {
    pub codec: C,
    pub settings: HeicSettings,
}

impl<C: Codec> Decoder<C> {
    /// A decoder with default settings.
    pub fn new(codec: C) -> (r: Self)
        ensures
            r.codec == codec,
            r.settings == HeicSettings::standard(),
    {
        Decoder { codec, settings: HeicSettings::new() }
    }

    /// A decoder with the given settings.
    pub fn from_settings(codec: C, settings: HeicSettings) -> (r: Self)
        ensures
            r.codec == codec,
            r.settings == settings,
    {
        Decoder { codec, settings }
    }
}

/// `r` is what parsing the container gives.
pub open spec fn parses<C: Codec>(
    codec: &C,
    file: Seq<u8>,
    limits: ParseLimits,
    options: HeifParseOptions,
    r: Result<HeifFile, DecodeError>,
) -> bool {
    exists|f: &[u8]|
        #![trigger call_ensures(C::container, (codec, f, &limits, options), r)]
        f@ == file && call_ensures(C::container, (codec, f, &limits, options), r)
}

/// The auxiliary images that are loaded: those that are wanted in general and by their setting.
pub open spec fn parse_options(settings: HeicSettings, auxiliary: bool) -> HeifParseOptions {
    HeifParseOptions {
        load_alpha: auxiliary && settings.decode_alpha,
        load_gain_map: auxiliary && settings.decode_gain_map,
    }
}

/// `r` is the visible part of a picture, or the reason why there is none.
pub open spec fn visible_buffer(
    planes: NativeYuvPlanes,
    dw: int,
    dh: int,
    crop: HevcVisibleCrop,
    r: Result<YuvBuffer, DecodeError>,
) -> bool {
    &&& match r {
        Ok(out) => out.wf() && buffer_shows(out, planes, dw, dh, crop),
        Err(e) => picture_fails(planes, dw, dh, crop, e),
    }
    &&& picture_too_large(planes, dw, dh, crop) ==> r is Err
}

/// `r` is the alpha plane if it is wanted.
pub open spec fn wanted_alpha<C: Codec>(
    codec: &C,
    wanted: bool,
    file: Seq<u8>,
    heif: HeifFile,
    dw: int,
    dh: int,
    r: Result<Option<SamplePlane>, DecodeError>,
) -> bool {
    if wanted {
        decodes_alpha(codec, file, heif.alpha, dw, dh, r)
    } else {
        r == Ok::<Option<SamplePlane>, DecodeError>(None)
    }
}

/// `r` is the gain map if it is wanted.
pub open spec fn wanted_gain_frame<C: Codec>(
    codec: &C,
    wanted: bool,
    limits: ParseLimits,
    file: Seq<u8>,
    heif: HeifFile,
    r: Result<Option<GainMapFrame>, DecodeError>,
) -> bool {
    if wanted {
        decodes_gain_frame(codec, limits, file, heif.gain_map, r)
    } else {
        r == Ok::<Option<GainMapFrame>, DecodeError>(None)
    }
}

/// What is said of an image beside its samples: depth, sampling and orientation of the decoded
/// samples, and the properties of the primary item.
pub open spec fn describes_yuv(
    out: DecodedYuv,
    heif: HeifFile,
    depth: BitDepth,
    chroma: ChromaFormat,
    orientation: Orientation,
) -> bool {
    &&& out.bit_depth == depth
    &&& out.chroma == chroma
    &&& out.orientation == orientation
    &&& out.color@ == heif.primary.color@
    &&& out.clean_aperture == heif.primary.clap
    &&& out.pixel_aspect_ratio == heif.primary.pasp
    &&& bytes_view(out.exif) == bytes_view(heif.exif)
}

/// `r` is the image with the given planes, completed by the auxiliary images that are wanted.
pub open spec fn completes_yuv<C: Codec>(
    codec: &C,
    settings: HeicSettings,
    file: Seq<u8>,
    heif: HeifFile,
    planes: YuvBuffer,
    dw: int,
    dh: int,
    depth: BitDepth,
    chroma: ChromaFormat,
    orientation: Orientation,
    r: Result<DecodedYuv, DecodeError>,
) -> bool {
    exists|a: Result<Option<SamplePlane>, DecodeError>|
        {
            &&& #[trigger] wanted_alpha(codec, settings.decode_alpha, file, heif, dw, dh, a)
            &&& match a {
                Err(e) => r == Err::<DecodedYuv, DecodeError>(e),
                Ok(alpha) => exists|g: Result<Option<GainMapFrame>, DecodeError>|
                    {
                        &&& #[trigger] wanted_gain_frame(
                            codec,
                            settings.decode_gain_map,
                            settings.limits,
                            file,
                            heif,
                            g,
                        )
                        &&& match g {
                            Err(e) => r == Err::<DecodedYuv, DecodeError>(e),
                            Ok(gain) => r matches Ok(out) && {
                                &&& out.planes == planes
                                &&& out.alpha == alpha
                                &&& out.gain_map == gain
                                &&& describes_yuv(out, heif, depth, chroma, orientation)
                            },
                        }
                    },
            }
        }
}

/// Completes decoded planes by the auxiliary images that are wanted.
pub fn complete_yuv<C: Codec>(
    codec: &C,
    settings: &HeicSettings,
    file: &[u8],
    heif: &HeifFile,
    planes: YuvBuffer,
    dw: usize,
    dh: usize,
    bit_depth: BitDepth,
    chroma: ChromaFormat,
    orientation: Orientation,
) -> (r: Result<DecodedYuv, DecodeError>)
    ensures
        completes_yuv(
            codec,
            *settings,
            file@,
            *heif,
            planes,
            dw as int,
            dh as int,
            bit_depth,
            chroma,
            orientation,
            r,
        ),
{
    let a: Result<Option<SamplePlane>, DecodeError> = if settings.decode_alpha {
        decode_alpha_plane_native(codec, file, heif, dw, dh)
    } else {
        Ok(None)
    };
    assert(wanted_alpha(codec, settings.decode_alpha, file@, *heif, dw as int, dh as int, a));
    let alpha: Option<SamplePlane> = match a {
        Ok(v) => v,
        Err(e) => return Err(e),
    };
    let g: Result<Option<GainMapFrame>, DecodeError> = if settings.decode_gain_map {
        decode_gain_map_frame(codec, &settings.limits, file, heif)
    } else {
        Ok(None)
    };
    assert(wanted_gain_frame(
        codec,
        settings.decode_gain_map,
        settings.limits,
        file@,
        *heif,
        g,
    ));
    let gain_map: Option<GainMapFrame> = match g {
        Ok(v) => v,
        Err(e) => return Err(e),
    };
    Ok(
        DecodedYuv {
            planes,
            alpha,
            gain_map,
            bit_depth,
            chroma,
            color: heif.primary.color.duplicate(),
            orientation,
            clean_aperture: heif.primary.clap,
            pixel_aspect_ratio: heif.primary.pasp,
            exif: copy_bytes(&heif.exif),
        },
    )
}

/// What is said of image data that cannot be found.
pub open spec fn image_messages() -> ExtentMessages {
    ExtentMessages {
        offset: "image data offset exceeds usize",
        length: "image data length exceeds usize",
        range: "image data range overflows usize",
        end: "image data extends past file end",
    }
}

/// `r` is the image of a single item, as planes.
pub open spec fn decodes_yuv_item<C: Codec>(
    codec: &C,
    settings: HeicSettings,
    file: Seq<u8>,
    heif: HeifFile,
    r: Result<DecodedYuv, DecodeError>,
) -> bool {
    let item = heif.primary;
    if !item.in_file(file.len() as int) {
        r == Err::<DecodedYuv, DecodeError>(item.extent_error(image_messages()))
    } else {
        exists|d: Result<(NativeYuvPlanes, Cicp), DecodeError>|
            {
                &&& #[trigger] decodes_native(codec, item.data(file), item.hvcc@, true, d)
                &&& match d {
                    Err(e) => r == Err::<DecodedYuv, DecodeError>(e),
                    Ok((planes, _)) => shows_yuv(codec, settings, file, heif, planes, r),
                }
            }
    }
}

/// `r` is the visible part of a decoded item, completed.
pub open spec fn shows_yuv<C: Codec>(
    codec: &C,
    settings: HeicSettings,
    file: Seq<u8>,
    heif: HeifFile,
    planes: NativeYuvPlanes,
    r: Result<DecodedYuv, DecodeError>,
) -> bool {
    let item = heif.primary;
    let dw = item.display_w as int;
    let dh = item.display_h as int;
    match settings.limits.complaint(item.display_w, item.display_h) {
        Some(e) => r == Err::<DecodedYuv, DecodeError>(e),
        None => exists|crop: HevcVisibleCrop, v: Result<YuvBuffer, DecodeError>|
            {
                &&& #[trigger] crops(codec, item.hvcc@, crop)
                &&& #[trigger] visible_buffer(planes, dw, dh, crop, v)
                &&& match v {
                    Err(e) => r == Err::<DecodedYuv, DecodeError>(e),
                    Ok(visible) => completes_yuv(
                        codec,
                        settings,
                        file,
                        heif,
                        visible,
                        dw,
                        dh,
                        planes.depth(),
                        planes.sampling(),
                        item.orientation,
                        r,
                    ),
                }
            },
    }
}

/// Decodes a single item into planes and completes it.
pub fn decode_yuv_item<C: Codec>(codec: &C, settings: &HeicSettings, file: &[u8], heif: &HeifFile) -> (r:
    Result<DecodedYuv, DecodeError>)
    ensures
        decodes_yuv_item(codec, *settings, file@, *heif, r),
{
    let item: &HeifItem = &heif.primary;
    let m: ExtentMessages = ExtentMessages {
        offset: "image data offset exceeds usize",
        length: "image data length exceeds usize",
        range: "image data range overflows usize",
        end: "image data extends past file end",
    };
    let (start, end): (usize, usize) = match item.extent(file.len(), m) {
        Ok(t) => t,
        Err(e) => return Err(e),
    };
    let d: Result<(NativeYuvPlanes, Cicp), DecodeError> = decode_hevc_item_native(
        codec,
        slice_subrange(file, start, end),
        item.hvcc.as_slice(),
        true,
    );
    assert(decodes_native(codec, item.data(file@), item.hvcc@, true, d));
    let planes: NativeYuvPlanes = match d {
        Ok((p, _)) => p,
        Err(e) => return Err(e),
    };
    match settings.limits.check_image(item.display_w, item.display_h) {
        Ok(()) => {},
        Err(e) => {
            let r: Result<DecodedYuv, DecodeError> = Err(e);
            assert(shows_yuv(codec, *settings, file@, *heif, planes, r));
            return r;
        },
    }
    let ghost picture = planes;
    let dw: usize = item.display_w as usize;
    let dh: usize = item.display_h as usize;
    let bit_depth: BitDepth = planes.bit_depth();
    let chroma: ChromaFormat = planes.chroma();
    let crop: HevcVisibleCrop = visible_crop_from_hvcc(codec, item.hvcc.as_slice());
    assert(crops(codec, item.hvcc@, crop));
    let v: Result<YuvBuffer, DecodeError> = native_to_visible_buffer(planes, dw, dh, crop);
    assert(visible_buffer(picture, dw as int, dh as int, crop, v));
    let r: Result<DecodedYuv, DecodeError> = match v {
        Ok(visible) => complete_yuv(
            codec,
            settings,
            file,
            heif,
            visible,
            dw,
            dh,
            bit_depth,
            chroma,
            item.orientation,
        ),
        Err(e) => Err(e),
    };
    assert(shows_yuv(codec, *settings, file@, *heif, picture, r));
    r
}

/// `r` is the image of a grid, as planes.
pub open spec fn decodes_yuv_grid<C: Codec>(
    codec: &C,
    settings: HeicSettings,
    file: Seq<u8>,
    heif: HeifFile,
    grid: GridInfo,
    r: Result<DecodedYuv, DecodeError>,
) -> bool {
    exists|g: Result<NativeGridImage, DecodeError>|
        {
            &&& #[trigger] decodes_native_grid(codec, settings.limits, file, grid, g)
            &&& match g {
                Err(e) => r == Err::<DecodedYuv, DecodeError>(e),
                Ok(image) => completes_yuv(
                    codec,
                    settings,
                    file,
                    heif,
                    image.planes,
                    grid.output_width as int,
                    grid.output_height as int,
                    image.bit_depth,
                    image.chroma,
                    grid.orientation,
                    r,
                ),
            }
        }
}

/// Decodes a grid into planes and completes it.
pub fn decode_grid_yuv<C: Codec>(
    codec: &C,
    settings: &HeicSettings,
    file: &[u8],
    grid: &GridInfo,
    heif: &HeifFile,
) -> (r: Result<DecodedYuv, DecodeError>)
    ensures
        decodes_yuv_grid(codec, *settings, file@, *heif, *grid, r),
{
    let g: Result<NativeGridImage, DecodeError> = decode_native_grid_image(
        codec,
        &settings.limits,
        file,
        grid,
    );
    assert(decodes_native_grid(codec, settings.limits, file@, *grid, g));
    match g {
        Ok(image) => complete_yuv(
            codec,
            settings,
            file,
            heif,
            image.planes,
            grid.output_width as usize,
            grid.output_height as usize,
            image.bit_depth,
            image.chroma,
            grid.orientation,
        ),
        Err(e) => Err(e),
    }
}

/// `r` is the image of a file, as planes. The container is parsed with the auxiliary images that
/// are wanted.
pub open spec fn decodes_yuv<C: Codec>(
    codec: &C,
    settings: HeicSettings,
    file: Seq<u8>,
    r: Result<DecodedYuv, DecodeError>,
) -> bool {
    exists|c: Result<HeifFile, DecodeError>|
        {
            &&& #[trigger] parses(codec, file, settings.limits, parse_options(settings, true), c)
            &&& match c {
                Err(e) => r == Err::<DecodedYuv, DecodeError>(e),
                Ok(heif) => match heif.grid {
                    Some(grid) => decodes_yuv_grid(codec, settings, file, heif, grid, r),
                    None => decodes_yuv_item(codec, settings, file, heif, r),
                },
            }
        }
}

/// Decodes a file into planes.
pub fn decode_heic_yuv_with<C: Codec>(decoder: &Decoder<C>, file: &[u8]) -> (r: Result<
    DecodedYuv,
    DecodeError,
>)
    ensures
        decodes_yuv(&decoder.codec, decoder.settings, file@, r),
{
    let codec: &C = &decoder.codec;
    let settings: &HeicSettings = &decoder.settings;
    let options: HeifParseOptions = HeifParseOptions {
        load_alpha: settings.decode_alpha,
        load_gain_map: settings.decode_gain_map,
    };
    let c: Result<HeifFile, DecodeError> = codec.container(file, &settings.limits, options);
    assert(options == parse_options(*settings, true));
    assert(parses(codec, file@, settings.limits, parse_options(*settings, true), c));
    let heif: HeifFile = match c {
        Ok(h) => h,
        Err(e) => return Err(e),
    };
    match &heif.grid {
        Some(grid) => decode_grid_yuv(codec, settings, file, grid, &heif),
        None => decode_yuv_item(codec, settings, file, &heif),
    }
}

/// Decodes a file into planes, with default settings.
pub fn decode_heic_yuv<C: Codec>(codec: C, file: &[u8]) -> (r: Result<DecodedYuv, DecodeError>)
    ensures
        decodes_yuv(&codec, HeicSettings::standard(), file@, r),
{
    let decoder: Decoder<C> = Decoder::new(codec);
    decode_heic_yuv_with(&decoder, file)
}

/// Decodes a file into planes, with the given settings.
pub fn decode_heic_yuv_with_settings<C: Codec>(codec: C, file: &[u8], settings: &HeicSettings) -> (r:
    Result<DecodedYuv, DecodeError>)
    ensures
        decodes_yuv(&codec, *settings, file@, r),
{
    let decoder: Decoder<C> = Decoder::from_settings(codec, *settings);
    decode_heic_yuv_with(&decoder, file)
}

/// The colour encoding of a picture: that of its sequence if specified, else that of its item, else
/// sRGB.
pub open spec fn color_encoding(vui: Cicp, item: Option<Cicp>) -> Cicp {
    if vui.matrix is Unspecified {
        fallback_color(item)
    } else {
        vui
    }
}

/// The colour encoding of an item, sRGB if it has none.
pub open spec fn fallback_color(item: Option<Cicp>) -> Cicp {
    match item {
        Some(c) => c,
        None => Cicp::standard(),
    }
}

fn fallback_color_of(item: &ColorMetadata) -> (r: Cicp)
    ensures
        r == fallback_color(item.cicp),
{
    match item.cicp {
        Some(c) => c,
        None => Cicp::srgb(),
    }
}

/// `r` is the alpha plane without padding if it is wanted.
pub open spec fn wanted_tight_alpha<C: Codec>(
    codec: &C,
    wanted: bool,
    file: Seq<u8>,
    heif: HeifFile,
    dw: int,
    dh: int,
    r: Result<Option<SampleBuf>, DecodeError>,
) -> bool {
    if wanted {
        decodes_tight_alpha(codec, file, heif.alpha, dw, dh, r)
    } else {
        r == Ok::<Option<SampleBuf>, DecodeError>(None)
    }
}

/// `r` is the gain map turned for display if it is wanted.
pub open spec fn wanted_gain_map<C: Codec>(
    codec: &C,
    wanted: bool,
    limits: ParseLimits,
    file: Seq<u8>,
    heif: HeifFile,
    r: Result<Option<GainMap>, DecodeError>,
) -> bool {
    if wanted {
        decodes_gain_map(codec, limits, file, heif.gain_map, true, r)
    } else {
        r == Ok::<Option<GainMap>, DecodeError>(None)
    }
}

/// Pixels and alpha plane of an image have the samples that its size asks for.
pub open spec fn can_turn_image(
    w: u32,
    h: u32,
    pixels: Pixels,
    alpha: Option<SampleBuf>,
    o: Orientation,
) -> bool {
    &&& can_orient(o, pixels.len(), w as int, h as int, pixels.channels())
    &&& alpha matches Some(s) ==> can_orient(o, s@.len(), w as int, h as int, 1)
}

/// `r` is an image with the given pixels, alpha plane and gain map, turned for display.
pub open spec fn turns_image(
    heif: HeifFile,
    w: u32,
    h: u32,
    pixels: Pixels,
    alpha: Option<SampleBuf>,
    gain: Option<GainMap>,
    depth: BitDepth,
    o: Orientation,
    r: Result<DecodedImage, DecodeError>,
) -> bool {
    if !can_turn_image(w, h, pixels, alpha, o) {
        r == Err::<DecodedImage, DecodeError>(DecodeError::Bitstream("image planes do not fit"))
    } else {
        match r {
            Err(e) => needs_memory(o) && image_fails(pixels, opt_samples(alpha), e),
            Ok(out) => {
                &&& (out.width, out.height) == oriented_size(w, h, o)
                &&& out.pixels@ == pixels.oriented(w as int, h as int, o)
                &&& opt_samples(out.alpha) == oriented_option(
                    opt_samples(alpha),
                    w as int,
                    h as int,
                    o,
                )
                &&& out.gain_map == gain
                &&& out.bit_depth == depth
                &&& out.orientation == o
                &&& out.color@ == heif.primary.color@
                &&& out.content_light_level == heif.primary.cll
                &&& out.clean_aperture == heif.primary.clap
                &&& out.pixel_aspect_ratio == heif.primary.pasp
                &&& bytes_view(out.exif) == bytes_view(heif.exif)
            },
        }
    }
}

/// `r` is the image with the given pixels, completed by the auxiliary images that are wanted and
/// turned for display.
pub open spec fn completes_image<C: Codec>(
    codec: &C,
    settings: HeicSettings,
    auxiliary: bool,
    file: Seq<u8>,
    heif: HeifFile,
    w: u32,
    h: u32,
    pixels: Pixels,
    depth: BitDepth,
    o: Orientation,
    r: Result<DecodedImage, DecodeError>,
) -> bool {
    exists|a: Result<Option<SampleBuf>, DecodeError>|
        {
            &&& #[trigger] wanted_tight_alpha(
                codec,
                wants(auxiliary, settings.decode_alpha),
                file,
                heif,
                w as int,
                h as int,
                a,
            )
            &&& match a {
                Err(e) => r == Err::<DecodedImage, DecodeError>(e),
                Ok(alpha) => exists|g: Result<Option<GainMap>, DecodeError>|
                    {
                        &&& #[trigger] wanted_gain_map(
                            codec,
                            wants(auxiliary, settings.decode_gain_map),
                            settings.limits,
                            file,
                            heif,
                            g,
                        )
                        &&& match g {
                            Err(e) => r == Err::<DecodedImage, DecodeError>(e),
                            Ok(gain) => turns_image(heif, w, h, pixels, alpha, gain, depth, o, r),
                        }
                    },
            }
        }
}

/// An auxiliary image is wanted: in general, and by its setting.
pub open spec fn wants(auxiliary: bool, setting: bool) -> bool {
    auxiliary && setting
}

fn pixel_count(p: &ImageBuffer) -> (r: (usize, usize))
    ensures
        r.0 == p@.len(),
        r.1 == p@.channels(),
        r.1 <= 3,
{
    match p {
        ImageBuffer::Luma8(v) => (v.len(), 1),
        ImageBuffer::Luma16(v) => (v.len(), 1),
        ImageBuffer::Rgb8(v) => (v.len(), 3),
        ImageBuffer::Rgb16(v) => (v.len(), 3),
    }
}

/// Completes converted pixels by the auxiliary images that are wanted, and turns them for display.
pub fn complete_image<C: Codec>(
    codec: &C,
    settings: &HeicSettings,
    auxiliary: bool,
    file: &[u8],
    heif: &HeifFile,
    width: u32,
    height: u32,
    pixels: ImageBuffer,
    bit_depth: BitDepth,
    orientation: Orientation,
) -> (r: Result<DecodedImage, DecodeError>)
    ensures
        completes_image(
            codec,
            *settings,
            auxiliary,
            file@,
            *heif,
            width,
            height,
            pixels@,
            bit_depth,
            orientation,
            r,
        ),
{
    let a: Result<Option<SampleBuf>, DecodeError> = if auxiliary && settings.decode_alpha {
        decode_alpha_plane(codec, file, heif, width as usize, height as usize)
    } else {
        Ok(None)
    };
    assert(wanted_tight_alpha(
        codec,
        wants(auxiliary, settings.decode_alpha),
        file@,
        *heif,
        width as int,
        height as int,
        a,
    ));
    let alpha: Option<SampleBuf> = match a {
        Ok(v) => v,
        Err(e) => return Err(e),
    };
    let g: Result<Option<GainMap>, DecodeError> = if auxiliary && settings.decode_gain_map {
        decode_gain_map(codec, &settings.limits, file, heif, true)
    } else {
        Ok(None)
    };
    assert(wanted_gain_map(
        codec,
        wants(auxiliary, settings.decode_gain_map),
        settings.limits,
        file@,
        *heif,
        g,
    ));
    let gain_map: Option<GainMap> = match g {
        Ok(v) => v,
        Err(e) => return Err(e),
    };
    let (len, channels): (usize, usize) = pixel_count(&pixels);
    let fits: bool = orientable(orientation, len, width, height, channels) && option_orientable(
        &alpha,
        width,
        height,
        orientation,
    );
    assert(fits == can_turn_image(width, height, pixels@, alpha, orientation));
    if !fits {
        return Err(DecodeError::Bitstream("image planes do not fit"));
    }
    let oriented: OrientedImage = match apply_orientation(
        width,
        height,
        pixels,
        alpha,
        orientation,
    ) {
        Ok(v) => v,
        Err(e) => return Err(e),
    };
    Ok(
        DecodedImage {
            width: oriented.width,
            height: oriented.height,
            pixels: oriented.pixels,
            alpha: oriented.alpha,
            gain_map,
            bit_depth,
            color: heif.primary.color.duplicate(),
            orientation,
            content_light_level: heif.primary.cll,
            clean_aperture: heif.primary.clap,
            pixel_aspect_ratio: heif.primary.pasp,
            exif: copy_bytes(&heif.exif),
        },
    )
}

/// What is said of the data of a displayed image that cannot be found.
pub open spec fn display_messages() -> ExtentMessages {
    ExtentMessages {
        offset: "image data offset/length overflows usize",
        length: "image data offset/length overflows usize",
        range: "image data offset/length overflows usize",
        end: "image data extends past file end",
    }
}

/// `r` is the image of a single item, ready for display.
pub open spec fn decodes_image_item<C: Codec>(
    codec: &C,
    settings: HeicSettings,
    auxiliary: bool,
    file: Seq<u8>,
    heif: HeifFile,
    r: Result<DecodedImage, DecodeError>,
) -> bool {
    let item = heif.primary;
    if !item.in_file(file.len() as int) {
        r == Err::<DecodedImage, DecodeError>(item.extent_error(display_messages()))
    } else {
        exists|d: Result<(YuvPlanes, Cicp), DecodeError>|
            {
                &&& #[trigger] decodes_wide(codec, item.data(file), item.hvcc@, true, d)
                &&& match d {
                    Err(e) => r == Err::<DecodedImage, DecodeError>(e),
                    Ok((planes, vui)) => shows_image(
                        codec,
                        settings,
                        auxiliary,
                        file,
                        heif,
                        planes,
                        vui,
                        r,
                    ),
                }
            }
    }
}

/// `r` is a decoded item, converted and completed.
pub open spec fn shows_image<C: Codec>(
    codec: &C,
    settings: HeicSettings,
    auxiliary: bool,
    file: Seq<u8>,
    heif: HeifFile,
    planes: YuvPlanes,
    vui: Cicp,
    r: Result<DecodedImage, DecodeError>,
) -> bool {
    let item = heif.primary;
    match settings.limits.complaint(item.display_w, item.display_h) {
        Some(e) => r == Err::<DecodedImage, DecodeError>(e),
        None => exists|crop: HevcVisibleCrop, p: Result<ImageBuffer, DecodeError>|
            {
                &&& #[trigger] crops(codec, item.hvcc@, crop)
                &&& #[trigger] converts(
                    codec,
                    planes,
                    item.display_w as usize,
                    item.display_h as usize,
                    crop.left,
                    crop.top,
                    color_encoding(vui, item.color.cicp),
                    true,
                    p,
                )
                &&& match p {
                    Err(e) => r == Err::<DecodedImage, DecodeError>(e),
                    Ok(pixels) => completes_image(
                        codec,
                        settings,
                        auxiliary,
                        file,
                        heif,
                        item.display_w,
                        item.display_h,
                        pixels@,
                        planes.bit_depth,
                        item.orientation,
                        r,
                    ),
                }
            },
    }
}

/// Decodes a single item into pixels and completes it.
pub fn decode_image_item<C: Codec>(
    codec: &C,
    settings: &HeicSettings,
    auxiliary: bool,
    file: &[u8],
    heif: &HeifFile,
) -> (r: Result<DecodedImage, DecodeError>)
    ensures
        decodes_image_item(codec, *settings, auxiliary, file@, *heif, r),
{
    let item: &HeifItem = &heif.primary;
    let m: ExtentMessages = ExtentMessages {
        offset: "image data offset/length overflows usize",
        length: "image data offset/length overflows usize",
        range: "image data offset/length overflows usize",
        end: "image data extends past file end",
    };
    let (start, end): (usize, usize) = match item.extent(file.len(), m) {
        Ok(t) => t,
        Err(e) => return Err(e),
    };
    let d: Result<(YuvPlanes, Cicp), DecodeError> = decode_hevc_item(
        codec,
        slice_subrange(file, start, end),
        item.hvcc.as_slice(),
        true,
    );
    assert(decodes_wide(codec, item.data(file@), item.hvcc@, true, d));
    let (planes, vui_color): (YuvPlanes, Cicp) = match d {
        Ok(t) => t,
        Err(e) => return Err(e),
    };
    match settings.limits.check_image(item.display_w, item.display_h) {
        Ok(()) => {},
        Err(e) => {
            let r: Result<DecodedImage, DecodeError> = Err(e);
            assert(shows_image(
                codec,
                *settings,
                auxiliary,
                file@,
                *heif,
                planes,
                vui_color,
                r,
            ));
            return r;
        },
    }
    let color_enc: Cicp = if vui_color.matrix != MatrixCoefficients::Unspecified {
        vui_color
    } else {
        fallback_color_of(&item.color)
    };
    let crop: HevcVisibleCrop = visible_crop_from_hvcc(codec, item.hvcc.as_slice());
    assert(crops(codec, item.hvcc@, crop));
    let p: Result<ImageBuffer, DecodeError> = codec.to_rgb(
        &planes,
        item.display_w as usize,
        item.display_h as usize,
        crop.left,
        crop.top,
        &color_enc,
        true,
    );
    assert(converts(
        codec,
        planes,
        item.display_w as usize,
        item.display_h as usize,
        crop.left,
        crop.top,
        color_encoding(vui_color, item.color.cicp),
        true,
        p,
    ));
    let r: Result<DecodedImage, DecodeError> = match p {
        Ok(pixels) => complete_image(
            codec,
            settings,
            auxiliary,
            file,
            heif,
            item.display_w,
            item.display_h,
            pixels,
            planes.bit_depth,
            item.orientation,
        ),
        Err(e) => Err(e),
    };
    assert(shows_image(codec, *settings, auxiliary, file@, *heif, planes, vui_color, r));
    r
}

/// Size of the tiles of a grid: the visible size of their sequence if that is known, else the size
/// that the first tile announces, else the output divided evenly. A tile that announces the size of
/// the whole output is not believed unless it is the only one.
pub open spec fn tile_size(grid: GridInfo, known: bool, ps: Result<(Sps, Pps), DecodeError>) -> Option<
    (int, int),
> {
    let t = grid.tiles@[0];
    let whole = t.display_w == grid.output_width && t.display_h == grid.output_height && (grid.cols
        > 1 || grid.rows > 1);
    if known && ps is Ok && ps->Ok_0.0.visible().0 > 0 && ps->Ok_0.0.visible().1 > 0 {
        Some(ps->Ok_0.0.visible())
    } else if t.display_w > 0 && t.display_h > 0 && !whole {
        Some((t.display_w as int, t.display_h as int))
    } else if grid.cols == 0 || grid.rows == 0 {
        None
    } else {
        Some(
            (
                ceil_div(grid.output_width as int, grid.cols as int),
                ceil_div(grid.output_height as int, grid.rows as int),
            ),
        )
    }
}

fn tile_size_of(grid: &GridInfo, known: bool, ps: &Result<(Sps, Pps), DecodeError>) -> (r: Option<
    (usize, usize),
>)
    requires
        grid.tiles@.len() > 0,
        grid.output_width > 0,
        grid.output_height > 0,
    ensures
        match r {
            Some(t) => tile_size(*grid, known, *ps) == Some((t.0 as int, t.1 as int)) && t.0 > 0
                && t.1 > 0,
            None => tile_size(*grid, known, *ps) is None,
        },
{
    if known {
        if let Ok((sps, _)) = ps {
            let (w, h): (u32, u32) = sps.visible_size();
            if w > 0 && h > 0 {
                return Some((w as usize, h as usize));
            }
        }
    }
    let t: &HeifItem = &grid.tiles[0];
    let whole: bool = t.display_w == grid.output_width && t.display_h == grid.output_height && (
    grid.cols > 1 || grid.rows > 1);
    if t.display_w > 0 && t.display_h > 0 && !whole {
        return Some((t.display_w as usize, t.display_h as usize));
    }
    if grid.cols == 0 || grid.rows == 0 {
        return None;
    }
    proof {
        lemma_ceil_div_positive(grid.output_width as int, grid.cols as int);
        lemma_ceil_div_positive(grid.output_height as int, grid.rows as int);
    }
    Some(
        (
            div_ceil(grid.output_width as usize, grid.cols as usize),
            div_ceil(grid.output_height as usize, grid.rows as usize),
        ),
    )
}

/// What is taken from the sequence of the tiles, or stands in for it.
pub struct TileFormat {
    pub color: Cicp,
    pub depth: BitDepth,
    pub mono: bool,
    pub crop: HevcVisibleCrop,
}

/// What the tiles of a grid are like. Without a sequence they have the colour of the item, 8 bits,
/// chroma and no margin.
pub open spec fn tile_format(heif: HeifFile, ps: Result<(Sps, Pps), DecodeError>) -> TileFormat {
    match ps {
        Ok((sps, _)) => TileFormat {
            color: sps.color(),
            depth: BitDepth::signalled(sps.bit_depth_luma as int),
            mono: sps.chroma is Monochrome,
            crop: sps.crop(),
        },
        Err(_) => TileFormat {
            color: fallback_color(heif.primary.color.cicp),
            depth: BitDepth::Eight,
            mono: false,
            crop: HevcVisibleCrop { left: 0, top: 0 },
        },
    }
}

fn tile_format_of(heif: &HeifFile, ps: &Result<(Sps, Pps), DecodeError>) -> (r: TileFormat)
    ensures
        r == tile_format(*heif, *ps),
{
    match ps {
        Ok((sps, _)) => TileFormat {
            color: sps.vui_color(),
            depth: sps.depth(),
            mono: sps.chroma.is_monochrome(),
            crop: sps.visible_crop(),
        },
        Err(_) => TileFormat {
            color: fallback_color_of(&heif.primary.color),
            depth: BitDepth::Eight,
            mono: false,
            crop: HevcVisibleCrop { left: 0, top: 0 },
        },
    }
}

/// How tiles of a size and format lie in a grid.
pub open spec fn pixel_geometry(grid: GridInfo, size: (int, int), format: TileFormat) -> PixelGeometry {
    PixelGeometry {
        cols: grid.cols as usize,
        out_w: grid.output_width as usize,
        out_h: grid.output_height as usize,
        tile_w: size.0 as usize,
        tile_h: size.1 as usize,
        tile_crop_left: format.crop.left,
        tile_crop_top: format.crop.top,
        channels: if format.mono {
            1
        } else {
            3
        },
    }
}

/// `r` is the image that tiles of a known format make, completed.
pub open spec fn composes_image<C: Codec>(
    codec: &C,
    settings: HeicSettings,
    auxiliary: bool,
    file: Seq<u8>,
    heif: HeifFile,
    grid: GridInfo,
    size: (int, int),
    format: TileFormat,
    r: Result<DecodedImage, DecodeError>,
) -> bool {
    let model = PixelGrid {
        file,
        tiles: grid.tiles@,
        fallback: first_hvcc(grid.tiles@, 0),
        color: format.color,
        geo: pixel_geometry(grid, size, format),
    };
    if !model.geo.wf() {
        r == Err::<DecodedImage, DecodeError>(
            DecodeError::Bitstream("grid dimensions overflow usize"),
        )
    } else if format.depth is Eight {
        exists|v: Result<Vec<u8>, DecodeError>|
            {
                &&& #[trigger] model.composes(codec, grid.rows as int, v)
                &&& match v {
                    Err(e) => r == Err::<DecodedImage, DecodeError>(e),
                    Ok(px) => completes_image(
                        codec,
                        settings,
                        auxiliary,
                        file,
                        heif,
                        grid.output_width,
                        grid.output_height,
                        <u8 as PixelSample>::wrapped(px@, format.mono),
                        format.depth,
                        grid.orientation,
                        r,
                    ),
                }
            }
    } else {
        exists|v: Result<Vec<u16>, DecodeError>|
            {
                &&& #[trigger] model.composes(codec, grid.rows as int, v)
                &&& match v {
                    Err(e) => r == Err::<DecodedImage, DecodeError>(e),
                    Ok(px) => completes_image(
                        codec,
                        settings,
                        auxiliary,
                        file,
                        heif,
                        grid.output_width,
                        grid.output_height,
                        <u16 as PixelSample>::wrapped(px@, format.mono),
                        format.depth,
                        grid.orientation,
                        r,
                    ),
                }
            }
    }
}

/// `r` is the image of a grid, ready for display.
pub open spec fn decodes_image_grid<C: Codec>(
    codec: &C,
    settings: HeicSettings,
    auxiliary: bool,
    file: Seq<u8>,
    heif: HeifFile,
    grid: GridInfo,
    r: Result<DecodedImage, DecodeError>,
) -> bool {
    let hvcc = first_hvcc(grid.tiles@, 0);
    if grid.output_width == 0 || grid.output_height == 0 || grid.tiles@.len() == 0 {
        r == Err::<DecodedImage, DecodeError>(
            DecodeError::Bitstream("grid has zero size or no tiles"),
        )
    } else {
        match settings.limits.complaint(grid.output_width, grid.output_height) {
            Some(e) => r == Err::<DecodedImage, DecodeError>(e),
            None => exists|ps: Result<(Sps, Pps), DecodeError>|
                {
                    &&& #[trigger] configures(codec, hvcc, ps)
                    &&& match tile_size(grid, hvcc.len() > 0, ps) {
                        None => r == Err::<DecodedImage, DecodeError>(
                            DecodeError::Bitstream("cannot determine tile dimensions"),
                        ),
                        Some(size) => composes_image(
                            codec,
                            settings,
                            auxiliary,
                            file,
                            heif,
                            grid,
                            size,
                            tile_format(heif, ps),
                            r,
                        ),
                    }
                },
        }
    }
}

fn geometry_fits(geo: &PixelGeometry) -> (r: bool)
    requires
        0 < geo.channels <= 3,
        0 < geo.out_w,
        0 < geo.tile_w,
        0 < geo.tile_h,
    ensures
        r == geo.wf(),
{
    let pitch: usize = match geo.out_w.checked_mul(geo.channels) {
        Some(p) => p,
        None => return false,
    };
    let tile: Option<usize> = geo.tile_w.checked_mul(geo.channels);
    let total: Option<usize> = pitch.checked_mul(geo.out_h);
    tile.is_some() && total.is_some()
}

/// What is known of a grid of pixels before its tiles are decoded.
pub struct PixelPlan {
    /// Configuration record of tiles without one of their own.
    pub fallback: Vec<u8>,
    pub format: TileFormat,
    pub geo: PixelGeometry,
}

/// `r` is what can be said of a grid of pixels before its tiles are decoded.
pub open spec fn plans_pixels<C: Codec>(
    codec: &C,
    limits: ParseLimits,
    heif: HeifFile,
    grid: GridInfo,
    r: Result<PixelPlan, DecodeError>,
) -> bool {
    let hvcc = first_hvcc(grid.tiles@, 0);
    if grid.output_width == 0 || grid.output_height == 0 || grid.tiles@.len() == 0 {
        r == Err::<PixelPlan, DecodeError>(DecodeError::Bitstream("grid has zero size or no tiles"))
    } else {
        match limits.complaint(grid.output_width, grid.output_height) {
            Some(e) => r == Err::<PixelPlan, DecodeError>(e),
            None => exists|ps: Result<(Sps, Pps), DecodeError>|
                {
                    &&& #[trigger] configures(codec, hvcc, ps)
                    &&& match tile_size(grid, hvcc.len() > 0, ps) {
                        None => r == Err::<PixelPlan, DecodeError>(
                            DecodeError::Bitstream("cannot determine tile dimensions"),
                        ),
                        Some(size) => {
                            let format = tile_format(heif, ps);
                            let geo = pixel_geometry(grid, size, format);
                            if !geo.wf() {
                                r == Err::<PixelPlan, DecodeError>(
                                    DecodeError::Bitstream("grid dimensions overflow usize"),
                                )
                            } else {
                                &&& r matches Ok(p)
                                &&& p.fallback@ == hvcc
                                &&& p.format == format
                                &&& p.geo == geo
                            }
                        },
                    }
                },
        }
    }
}

/// Finds out how the tiles of a grid of pixels lie.
pub fn plan_pixel_grid<C: Codec>(
    codec: &C,
    limits: &ParseLimits,
    grid: &GridInfo,
    heif: &HeifFile,
) -> (r: Result<PixelPlan, DecodeError>)
    ensures
        plans_pixels(codec, *limits, *heif, *grid, r),
        r matches Ok(p) ==> p.geo.wf(),
{
    if grid.output_width == 0 || grid.output_height == 0 || grid.tiles.len() == 0 {
        return Err(DecodeError::Bitstream("grid has zero size or no tiles"));
    }
    match limits.check_image(grid.output_width, grid.output_height) {
        Ok(()) => {},
        Err(e) => return Err(e),
    }
    let fallback: Vec<u8> = fallback_hvcc(&grid.tiles);
    let ps: Result<(Sps, Pps), DecodeError> = codec.param_sets(fallback.as_slice());
    assert(configures(codec, fallback@, ps));
    let size: (usize, usize) = match tile_size_of(grid, fallback.len() > 0, &ps) {
        Some(t) => t,
        None => return Err(DecodeError::Bitstream("cannot determine tile dimensions")),
    };
    let format: TileFormat = tile_format_of(heif, &ps);
    let geo: PixelGeometry = PixelGeometry {
        cols: grid.cols as usize,
        out_w: grid.output_width as usize,
        out_h: grid.output_height as usize,
        tile_w: size.0,
        tile_h: size.1,
        tile_crop_left: format.crop.left,
        tile_crop_top: format.crop.top,
        channels: if format.mono {
            1
        } else {
            3
        },
    };
    assert(geo == pixel_geometry(*grid, (size.0 as int, size.1 as int), format));
    if !geometry_fits(&geo) {
        return Err(DecodeError::Bitstream("grid dimensions overflow usize"));
    }
    Ok(PixelPlan { fallback, format, geo })
}

/// Decodes a grid into interleaved pixels and completes it.
pub fn decode_grid<C: Codec>(
    codec: &C,
    settings: &HeicSettings,
    file: &[u8],
    grid: &GridInfo,
    heif: &HeifFile,
    decode_auxiliary_images: bool,
) -> (r: Result<DecodedImage, DecodeError>)
    ensures
        decodes_image_grid(codec, *settings, decode_auxiliary_images, file@, *heif, *grid, r),
{
    let planned: Result<PixelPlan, DecodeError> = plan_pixel_grid(
        codec,
        &settings.limits,
        grid,
        heif,
    );
    let ghost hvcc = first_hvcc(grid.tiles@, 0);
    let ghost ps = choose|ps: Result<(Sps, Pps), DecodeError>|
        {
            &&& #[trigger] configures(codec, hvcc, ps)
            &&& match tile_size(*grid, hvcc.len() > 0, ps) {
                None => planned == Err::<PixelPlan, DecodeError>(
                    DecodeError::Bitstream("cannot determine tile dimensions"),
                ),
                Some(size) => {
                    let format = tile_format(*heif, ps);
                    let geo = pixel_geometry(*grid, size, format);
                    if !geo.wf() {
                        planned == Err::<PixelPlan, DecodeError>(
                            DecodeError::Bitstream("grid dimensions overflow usize"),
                        )
                    } else {
                        &&& planned matches Ok(p)
                        &&& p.fallback@ == hvcc
                        &&& p.format == format
                        &&& p.geo == geo
                    }
                },
            }
        };
    let ghost dims = tile_size(*grid, hvcc.len() > 0, ps)->0;
    let plan: PixelPlan = match planned {
        Ok(p) => p,
        Err(e) => {
            let r: Result<DecodedImage, DecodeError> = Err(e);
            proof {
                if e == DecodeError::Bitstream("grid dimensions overflow usize") && !pixel_geometry(
                    *grid,
                    dims,
                    tile_format(*heif, ps),
                ).wf() {
                    assert(composes_image(
                        codec,
                        *settings,
                        decode_auxiliary_images,
                        file@,
                        *heif,
                        *grid,
                        dims,
                        tile_format(*heif, ps),
                        r,
                    ));
                }
            }
            return r;
        },
    };
    let format: TileFormat = plan.format;
    let geo: PixelGeometry = plan.geo;
    let ctx: GridCtx<'_> = GridCtx {
        file,
        tiles: grid.tiles.as_slice(),
        fallback_hvcc: plan.fallback.as_slice(),
        color_enc: format.color,
        geo,
    };
    let rows: usize = grid.rows as usize;
    let pixels: Result<ImageBuffer, DecodeError> = if format.depth == BitDepth::Eight {
        let v: Result<Vec<u8>, DecodeError> = fill_grid_bands(codec, rows, &ctx);
        assert(ctx@.composes(codec, rows as int, v));
        match v {
            Ok(px) => Ok(<u8 as PixelSample>::wrap(px, format.mono)),
            Err(e) => Err(e),
        }
    } else {
        let v: Result<Vec<u16>, DecodeError> = fill_grid_bands(codec, rows, &ctx);
        assert(ctx@.composes(codec, rows as int, v));
        match v {
            Ok(px) => Ok(<u16 as PixelSample>::wrap(px, format.mono)),
            Err(e) => Err(e),
        }
    };
    let r: Result<DecodedImage, DecodeError> = match pixels {
        Ok(px) => complete_image(
            codec,
            settings,
            decode_auxiliary_images,
            file,
            heif,
            grid.output_width,
            grid.output_height,
            px,
            format.depth,
            grid.orientation,
        ),
        Err(e) => Err(e),
    };
    assert(composes_image(
        codec,
        *settings,
        decode_auxiliary_images,
        file@,
        *heif,
        *grid,
        dims,
        format,
        r,
    ));
    r
}

/// `r` is the image of a file, ready for display. Without auxiliary images the container is parsed
/// without them.
pub open spec fn decodes_image<C: Codec>(
    codec: &C,
    settings: HeicSettings,
    auxiliary: bool,
    file: Seq<u8>,
    r: Result<DecodedImage, DecodeError>,
) -> bool {
    exists|c: Result<HeifFile, DecodeError>|
        {
            &&& #[trigger] parses(
                codec,
                file,
                settings.limits,
                parse_options(settings, auxiliary),
                c,
            )
            &&& match c {
                Err(e) => r == Err::<DecodedImage, DecodeError>(e),
                Ok(heif) => match heif.grid {
                    Some(grid) => decodes_image_grid(
                        codec,
                        settings,
                        auxiliary,
                        file,
                        heif,
                        grid,
                        r,
                    ),
                    None => decodes_image_item(codec, settings, auxiliary, file, heif, r),
                },
            }
        }
}

fn decode_heic_impl<C: Codec>(decoder: &Decoder<C>, file: &[u8], decode_auxiliary_images: bool) -> (r:
    Result<DecodedImage, DecodeError>)
    ensures
        decodes_image(&decoder.codec, decoder.settings, decode_auxiliary_images, file@, r),
{
    let codec: &C = &decoder.codec;
    let settings: &HeicSettings = &decoder.settings;
    let options: HeifParseOptions = HeifParseOptions {
        load_alpha: decode_auxiliary_images && settings.decode_alpha,
        load_gain_map: decode_auxiliary_images && settings.decode_gain_map,
    };
    let c: Result<HeifFile, DecodeError> = codec.container(file, &settings.limits, options);
    assert(options == parse_options(*settings, decode_auxiliary_images));
    assert(parses(
        codec,
        file@,
        settings.limits,
        parse_options(*settings, decode_auxiliary_images),
        c,
    ));
    let heif: HeifFile = match c {
        Ok(h) => h,
        Err(e) => return Err(e),
    };
    match &heif.grid {
        Some(grid) => decode_grid(codec, settings, file, grid, &heif, decode_auxiliary_images),
        None => decode_image_item(codec, settings, decode_auxiliary_images, file, &heif),
    }
}

/// Decodes a file into pixels ready for display.
pub fn decode_heic_with<C: Codec>(decoder: &Decoder<C>, file: &[u8]) -> (r: Result<
    DecodedImage,
    DecodeError,
>)
    ensures
        decodes_image(&decoder.codec, decoder.settings, true, file@, r),
{
    decode_heic_impl(decoder, file, true)
}

/// Decodes a file into pixels ready for display, with default settings.
pub fn decode_heic<C: Codec>(codec: C, file: &[u8]) -> (r: Result<DecodedImage, DecodeError>)
    ensures
        decodes_image(&codec, HeicSettings::standard(), true, file@, r),
{
    let decoder: Decoder<C> = Decoder::new(codec);
    decode_heic_with(&decoder, file)
}

/// Decodes a file into pixels ready for display, with the given settings.
pub fn decode_heic_with_settings<C: Codec>(codec: C, file: &[u8], settings: &HeicSettings) -> (r:
    Result<DecodedImage, DecodeError>)
    ensures
        decodes_image(&codec, *settings, true, file@, r),
{
    let decoder: Decoder<C> = Decoder::from_settings(codec, *settings);
    decode_heic_with(&decoder, file)
}

/// `r` is the image of a file as packed 8-bit RGB. Auxiliary images are never decoded for it.
pub open spec fn decodes_rgb8<C: Codec>(
    codec: &C,
    settings: HeicSettings,
    file: Seq<u8>,
    r: Result<Rgb8Image, DecodeError>,
) -> bool {
    exists|i: Result<DecodedImage, DecodeError>|
        {
            &&& #[trigger] decodes_image(codec, settings, false, file, i)
            &&& match i {
                Err(e) => r == Err::<Rgb8Image, DecodeError>(e),
                Ok(image) => match r {
                    Ok(out) => {
                        &&& out.pixels@ == rgb8(image.pixels@, image.bit_depth.count() - 8)
                        &&& out.width == image.width
                        &&& out.height == image.height
                    },
                    Err(e) => {
                        &&& !is_rgb8(image.pixels@)
                        &&& if rgb8_len(image.pixels@) > usize::MAX {
                            e == DecodeError::Bitstream("RGB8 output length overflows usize")
                        } else {
                            e == no_memory::<u8>("RGB8 output", rgb8_len(image.pixels@))
                        }
                    },
                },
            }
        }
}

/// Decodes a file into packed 8-bit RGB.
pub fn decode_heic_rgb8_with<C: Codec>(decoder: &Decoder<C>, file: &[u8]) -> (r: Result<
    Rgb8Image,
    DecodeError,
>)
    ensures
        decodes_rgb8(&decoder.codec, decoder.settings, file@, r),
{
    let i: Result<DecodedImage, DecodeError> = decode_heic_impl(decoder, file, false);
    assert(decodes_image(&decoder.codec, decoder.settings, false, file@, i));
    let image: DecodedImage = match i {
        Ok(v) => v,
        Err(e) => return Err(e),
    };
    match to_rgb8(image.pixels, image.bit_depth) {
        Ok(pixels) => Ok(Rgb8Image { pixels, width: image.width, height: image.height }),
        Err(e) => Err(e),
    }
}

/// Decodes a file into packed 8-bit RGB, with default settings.
pub fn decode_heic_rgb8<C: Codec>(codec: C, file: &[u8]) -> (r: Result<Rgb8Image, DecodeError>)
    ensures
        decodes_rgb8(&codec, HeicSettings::standard(), file@, r),
{
    let decoder: Decoder<C> = Decoder::new(codec);
    decode_heic_rgb8_with(&decoder, file)
}

/// Decodes a file into packed 8-bit RGB, with the given settings.
pub fn decode_heic_rgb8_with_settings<C: Codec>(codec: C, file: &[u8], settings: &HeicSettings) -> (r:
    Result<Rgb8Image, DecodeError>)
    ensures
        decodes_rgb8(&codec, *settings, file@, r),
{
    let decoder: Decoder<C> = Decoder::from_settings(codec, *settings);
    decode_heic_rgb8_with(&decoder, file)
}

impl<C: Codec> Decoder<C> {
    /// Decodes a file into pixels ready for display.
    pub fn decode(&self, file: &[u8]) -> (r: Result<DecodedImage, DecodeError>)
        ensures
            decodes_image(&self.codec, self.settings, true, file@, r),
    {
        decode_heic_with(self, file)
    }

    /// Decodes a file into planes.
    pub fn decode_yuv(&self, file: &[u8]) -> (r: Result<DecodedYuv, DecodeError>)
        ensures
            decodes_yuv(&self.codec, self.settings, file@, r),
    {
        decode_heic_yuv_with(self, file)
    }

    /// Decodes a file into packed 8-bit RGB.
    pub fn decode_rgb8(&self, file: &[u8]) -> (r: Result<Rgb8Image, DecodeError>)
        ensures
            decodes_rgb8(&self.codec, self.settings, file@, r),
    {
        decode_heic_rgb8_with(self, file)
    }
}

/// Packed RGB is decoded without loading any auxiliary image, whatever the settings say; so is
/// every image with settings for the primary image only.
pub proof fn primary_images_load_no_others(settings: HeicSettings, auxiliary: bool)
    ensures
        parse_options(settings, false) == (HeifParseOptions {
            load_alpha: false,
            load_gain_map: false,
        }),
        !settings.decode_alpha && !settings.decode_gain_map ==> parse_options(settings, auxiliary)
            == parse_options(settings, false),
{
}

/// An image that is completed without wanting an auxiliary image comes without it.
proof fn lemma_completed_image<C: Codec>(
    codec: &C,
    settings: HeicSettings,
    auxiliary: bool,
    file: Seq<u8>,
    heif: HeifFile,
    w: u32,
    h: u32,
    pixels: Pixels,
    depth: BitDepth,
    o: Orientation,
    out: DecodedImage,
)
    requires
        completes_image(
            codec,
            settings,
            auxiliary,
            file,
            heif,
            w,
            h,
            pixels,
            depth,
            o,
            Ok(out),
        ),
    ensures
        !wants(auxiliary, settings.decode_alpha) ==> out.alpha is None,
        !wants(auxiliary, settings.decode_gain_map) ==> out.gain_map is None,
        (out.width, out.height) == oriented_size(w, h, o),
        out.orientation == o,
        out.pixels@.len() == pixels.len(),
        out.pixels@.channels() == pixels.channels(),
{
}

/// The conversion gives all pixels of the window that it is asked for.
pub open spec fn converts_fully<C: Codec>(codec: &C) -> bool {
    forall|
        planes: YuvPlanes,
        width: usize,
        height: usize,
        left: usize,
        top: usize,
        color: Cicp,
        parallel: bool,
        p: ImageBuffer,
    |
        #[trigger] converts(codec, planes, width, height, left, top, color, parallel, Ok(p))
            ==> p@.len() == width * height * p@.channels()
}

/// A decoded image has no alpha plane if alpha is switched off, and no gain map if gain maps are.
/// Its size, before turning, is within the limits, and it has all its pixels if conversion gives
/// all.
pub proof fn decoded_image_follows_the_settings<C: Codec>(
    codec: &C,
    settings: HeicSettings,
    auxiliary: bool,
    file: Seq<u8>,
    out: DecodedImage,
)
    requires
        decodes_image(codec, settings, auxiliary, file, Ok(out)),
    ensures
        !wants(auxiliary, settings.decode_alpha) ==> out.alpha is None,
        !wants(auxiliary, settings.decode_gain_map) ==> out.gain_map is None,
        ({
            let (w, h) = oriented_size(out.width, out.height, out.orientation);
            settings.limits.complaint(w, h) is None
        }),
        converts_fully(codec) ==> out.pixels@.len() == out.width * out.height
            * out.pixels@.channels(),
{
    let c = choose|c: Result<HeifFile, DecodeError>|
        {
            &&& #[trigger] parses(
                codec,
                file,
                settings.limits,
                parse_options(settings, auxiliary),
                c,
            )
            &&& match c {
                Err(e) => false,
                Ok(heif) => match heif.grid {
                    Some(grid) => decodes_image_grid(
                        codec,
                        settings,
                        auxiliary,
                        file,
                        heif,
                        grid,
                        Ok(out),
                    ),
                    None => decodes_image_item(codec, settings, auxiliary, file, heif, Ok(out)),
                },
            }
        };
    let heif = c->Ok_0;
    match heif.grid {
        Some(grid) => {
            let ps = choose|ps: Result<(Sps, Pps), DecodeError>|
                {
                    &&& #[trigger] configures(codec, first_hvcc(grid.tiles@, 0), ps)
                    &&& match tile_size(grid, first_hvcc(grid.tiles@, 0).len() > 0, ps) {
                        None => false,
                        Some(size) => composes_image(
                            codec,
                            settings,
                            auxiliary,
                            file,
                            heif,
                            grid,
                            size,
                            tile_format(heif, ps),
                            Ok(out),
                        ),
                    }
                };
            let size = tile_size(grid, first_hvcc(grid.tiles@, 0).len() > 0, ps)->0;
            let format = tile_format(heif, ps);
            let model = PixelGrid {
                file,
                tiles: grid.tiles@,
                fallback: first_hvcc(grid.tiles@, 0),
                color: format.color,
                geo: pixel_geometry(grid, size, format),
            };
            let pixels = if format.depth is Eight {
                let v = choose|v: Result<Vec<u8>, DecodeError>|
                    {
                        &&& #[trigger] model.composes(codec, grid.rows as int, v)
                        &&& match v {
                            Err(e) => false,
                            Ok(px) => completes_image(
                                codec,
                                settings,
                                auxiliary,
                                file,
                                heif,
                                grid.output_width,
                                grid.output_height,
                                <u8 as PixelSample>::wrapped(px@, format.mono),
                                format.depth,
                                grid.orientation,
                                Ok(out),
                            ),
                        }
                    };
                composed_pixels_are_complete(model, codec, grid.rows as int, v->Ok_0);
                <u8 as PixelSample>::wrapped(v->Ok_0@, format.mono)
            } else {
                let v = choose|v: Result<Vec<u16>, DecodeError>|
                    {
                        &&& #[trigger] model.composes(codec, grid.rows as int, v)
                        &&& match v {
                            Err(e) => false,
                            Ok(px) => completes_image(
                                codec,
                                settings,
                                auxiliary,
                                file,
                                heif,
                                grid.output_width,
                                grid.output_height,
                                <u16 as PixelSample>::wrapped(px@, format.mono),
                                format.depth,
                                grid.orientation,
                                Ok(out),
                            ),
                        }
                    };
                composed_pixels_are_complete(model, codec, grid.rows as int, v->Ok_0);
                <u16 as PixelSample>::wrapped(v->Ok_0@, format.mono)
            };
            let (w, h) = (grid.output_width as int, grid.output_height as int);
            let c = pixels.channels();
            assert(w * c * h == w * h * c && w * h == h * w) by (nonlinear_arith);
            assert(pixels.len() == w * h * c);
            lemma_completed_image(
                codec,
                settings,
                auxiliary,
                file,
                heif,
                grid.output_width,
                grid.output_height,
                pixels,
                format.depth,
                grid.orientation,
                out,
            );
        },
        None => {
            let item = heif.primary;
            let d = choose|d: Result<(YuvPlanes, Cicp), DecodeError>|
                {
                    &&& #[trigger] decodes_wide(codec, item.data(file), item.hvcc@, true, d)
                    &&& match d {
                        Err(e) => false,
                        Ok((planes, vui)) => shows_image(
                            codec,
                            settings,
                            auxiliary,
                            file,
                            heif,
                            planes,
                            vui,
                            Ok(out),
                        ),
                    }
                };
            let (planes, vui) = d->Ok_0;
            let (crop, p) = choose|crop: HevcVisibleCrop, p: Result<ImageBuffer, DecodeError>|
                {
                    &&& #[trigger] crops(codec, item.hvcc@, crop)
                    &&& #[trigger] converts(
                        codec,
                        planes,
                        item.display_w as usize,
                        item.display_h as usize,
                        crop.left,
                        crop.top,
                        color_encoding(vui, item.color.cicp),
                        true,
                        p,
                    )
                    &&& match p {
                        Err(e) => false,
                        Ok(pixels) => completes_image(
                            codec,
                            settings,
                            auxiliary,
                            file,
                            heif,
                            item.display_w,
                            item.display_h,
                            pixels@,
                            planes.bit_depth,
                            item.orientation,
                            Ok(out),
                        ),
                    }
                };
            assert(item.display_w * item.display_h == item.display_h * item.display_w)
                by (nonlinear_arith);
            lemma_completed_image(
                codec,
                settings,
                auxiliary,
                file,
                heif,
                item.display_w,
                item.display_h,
                p->Ok_0@,
                planes.bit_depth,
                item.orientation,
                out,
            );
        },
    }
}

/// Packed RGB has exactly three bytes per pixel if conversion gives all pixels.
pub proof fn packed_rgb_has_three_bytes_per_pixel<C: Codec>(
    codec: &C,
    settings: HeicSettings,
    file: Seq<u8>,
    out: Rgb8Image,
)
    requires
        decodes_rgb8(codec, settings, file, Ok(out)),
        converts_fully(codec),
    ensures
        out.pixels@.len() == 3 * (out.width * out.height),
{
    let i = choose|i: Result<DecodedImage, DecodeError>|
        {
            &&& #[trigger] decodes_image(codec, settings, false, file, i)
            &&& match i {
                Err(e) => false,
                Ok(image) => {
                    &&& out.pixels@ == rgb8(image.pixels@, image.bit_depth.count() - 8)
                    &&& out.width == image.width
                    &&& out.height == image.height
                },
            }
        };
    let image = i->Ok_0;
    decoded_image_follows_the_settings(codec, settings, false, file, image);
    three_bytes_per_pixel(
        image.pixels@,
        image.bit_depth.count() - 8,
        out.width * out.height,
    );
}

/// Decoded planes come without an alpha plane if alpha is switched off, and without a gain map if
/// gain maps are.
pub proof fn decoded_planes_follow_the_settings<C: Codec>(
    codec: &C,
    settings: HeicSettings,
    file: Seq<u8>,
    out: DecodedYuv,
)
    requires
        decodes_yuv(codec, settings, file, Ok(out)),
    ensures
        !settings.decode_alpha ==> out.alpha is None,
        !settings.decode_gain_map ==> out.gain_map is None,
{
    let c = choose|c: Result<HeifFile, DecodeError>|
        {
            &&& #[trigger] parses(codec, file, settings.limits, parse_options(settings, true), c)
            &&& match c {
                Err(e) => false,
                Ok(heif) => match heif.grid {
                    Some(grid) => decodes_yuv_grid(codec, settings, file, heif, grid, Ok(out)),
                    None => decodes_yuv_item(codec, settings, file, heif, Ok(out)),
                },
            }
        };
    let heif = c->Ok_0;
    match heif.grid {
        Some(grid) => {
            assert(decodes_yuv_grid(codec, settings, file, heif, grid, Ok(out)));
        },
        None => {
            assert(decodes_yuv_item(codec, settings, file, heif, Ok(out)));
        },
    }
}

/// Colours are those of the bitstream; where it says nothing, those of the item; where that says
/// nothing either, the standard ones.
pub proof fn colours_prefer_the_bitstream(vui: Cicp, item: Option<Cicp>)
    ensures
        !(vui.matrix is Unspecified) ==> color_encoding(vui, item) == vui,
        vui.matrix is Unspecified && item is Some ==> color_encoding(vui, item) == item->0,
        vui.matrix is Unspecified && item is None ==> color_encoding(vui, item) == Cicp::standard(),
{
}

/// Auxiliary images are loaded where they are asked for and the settings let them.
pub proof fn auxiliaries_are_loaded_on_demand(settings: HeicSettings, auxiliary: bool)
    ensures
        parse_options(settings, auxiliary).load_alpha <==> auxiliary && settings.decode_alpha,
        parse_options(settings, auxiliary).load_gain_map <==> auxiliary && settings.decode_gain_map,
        wants(auxiliary, settings.decode_alpha) <==> auxiliary && settings.decode_alpha,
{
}

/// The size of a tile is the visible size of its picture; else what the first tile announces,
/// unless that is the size of the whole grid; else an even division of the grid.
pub proof fn tile_sizes_prefer_the_bitstream(
    grid: GridInfo,
    known: bool,
    ps: Result<(Sps, Pps), DecodeError>,
)
    requires
        grid.tiles@.len() > 0,
    ensures
        ({
            let t = grid.tiles@[0];
            let seen = known && ps is Ok && ps->Ok_0.0.visible().0 > 0 && ps->Ok_0.0.visible().1
                > 0;
            let alone = grid.cols <= 1 && grid.rows <= 1;
            let other = t.display_w != grid.output_width || t.display_h != grid.output_height;
            let said = t.display_w > 0 && t.display_h > 0 && (alone || other);
            &&& seen ==> tile_size(grid, known, ps) == Some(ps->Ok_0.0.visible())
            &&& !seen && said ==> tile_size(grid, known, ps) == Some(
                (t.display_w as int, t.display_h as int),
            )
            &&& !seen && !said && grid.cols > 0 && grid.rows > 0 ==> (tile_size(grid, known, ps)
                matches Some((w, h)) && w == ceil_div(grid.output_width as int, grid.cols as int)
                && h == ceil_div(grid.output_height as int, grid.rows as int))
            &&& !seen && !said && (grid.cols == 0 || grid.rows == 0) ==> tile_size(
                grid,
                known,
                ps,
            ) is None
        }),
{
}

/// Tiles are converted by the format of their pictures. Without one they are taken as colour images
/// of 8 bits, in the colours of the item and without a crop.
pub proof fn tiles_are_converted_by_their_format(
    heif: HeifFile,
    ps: Result<(Sps, Pps), DecodeError>,
    grid: GridInfo,
    size: (int, int),
)
    requires
        0 <= size.0 <= u32::MAX,
        0 <= size.1 <= u32::MAX,
    ensures
        ({
            let f = tile_format(heif, ps);
            let g = pixel_geometry(grid, size, f);
            &&& ps matches Ok((sps, _)) ==> {
                &&& f.color == sps.color()
                &&& f.depth == BitDepth::signalled(sps.bit_depth_luma as int)
                &&& f.mono <==> sps.chroma is Monochrome
                &&& g.tile_crop_left == sps.crop_left
                &&& g.tile_crop_top == sps.crop_top
            }
            &&& ps is Err ==> {
                &&& heif.primary.color.cicp is Some ==> f.color == heif.primary.color.cicp->0
                &&& heif.primary.color.cicp is None ==> f.color == Cicp::standard()
                &&& f.depth is Eight
                &&& !f.mono
                &&& g.tile_crop_left == 0
                &&& g.tile_crop_top == 0
            }
            &&& g.channels == if f.mono {
                1int
            } else {
                3
            }
            &&& g.cols == grid.cols
            &&& g.out_w == grid.output_width
            &&& g.out_h == grid.output_height
            &&& g.tile_w == size.0
            &&& g.tile_h == size.1
        }),
{
}

/// The image says of itself what its container says of the primary image, and has its orientation
/// and its size, turned.
pub open spec fn carries(out: DecodedImage, heif: HeifFile) -> bool {
    let (o, w, h) = match heif.grid {
        Some(grid) => (grid.orientation, grid.output_width, grid.output_height),
        None => (heif.primary.orientation, heif.primary.display_w, heif.primary.display_h),
    };
    &&& out.color@ == heif.primary.color@
    &&& out.content_light_level == heif.primary.cll
    &&& out.clean_aperture == heif.primary.clap
    &&& out.pixel_aspect_ratio == heif.primary.pasp
    &&& bytes_view(out.exif) == bytes_view(heif.exif)
    &&& out.orientation == o
    &&& (out.width, out.height) == oriented_size(w, h, o)
}

proof fn lemma_completed_image_carries<C: Codec>(
    codec: &C,
    settings: HeicSettings,
    auxiliary: bool,
    file: Seq<u8>,
    heif: HeifFile,
    w: u32,
    h: u32,
    pixels: Pixels,
    depth: BitDepth,
    o: Orientation,
    out: DecodedImage,
)
    requires
        completes_image(
            codec,
            settings,
            auxiliary,
            file,
            heif,
            w,
            h,
            pixels,
            depth,
            o,
            Ok(out),
        ),
    ensures
        out.color@ == heif.primary.color@,
        out.content_light_level == heif.primary.cll,
        out.clean_aperture == heif.primary.clap,
        out.pixel_aspect_ratio == heif.primary.pasp,
        bytes_view(out.exif) == bytes_view(heif.exif),
        out.orientation == o,
        (out.width, out.height) == oriented_size(w, h, o),
{
}

/// A decoded image carries the description of its container.
pub proof fn decoded_images_carry_their_description<C: Codec>(
    codec: &C,
    settings: HeicSettings,
    auxiliary: bool,
    file: Seq<u8>,
    out: DecodedImage,
)
    requires
        decodes_image(codec, settings, auxiliary, file, Ok(out)),
    ensures
        exists|heif: HeifFile|
            {
                &&& #[trigger] parses(
                    codec,
                    file,
                    settings.limits,
                    parse_options(settings, auxiliary),
                    Ok::<HeifFile, DecodeError>(heif),
                )
                &&& carries(out, heif)
            },
{
    let c = choose|c: Result<HeifFile, DecodeError>|
        {
            &&& #[trigger] parses(
                codec,
                file,
                settings.limits,
                parse_options(settings, auxiliary),
                c,
            )
            &&& match c {
                Err(e) => false,
                Ok(heif) => match heif.grid {
                    Some(grid) => decodes_image_grid(
                        codec,
                        settings,
                        auxiliary,
                        file,
                        heif,
                        grid,
                        Ok(out),
                    ),
                    None => decodes_image_item(codec, settings, auxiliary, file, heif, Ok(out)),
                },
            }
        };
    let heif = c->Ok_0;
    match heif.grid {
        Some(grid) => {
            let ps = choose|ps: Result<(Sps, Pps), DecodeError>|
                {
                    &&& #[trigger] configures(codec, first_hvcc(grid.tiles@, 0), ps)
                    &&& match tile_size(grid, first_hvcc(grid.tiles@, 0).len() > 0, ps) {
                        None => false,
                        Some(size) => composes_image(
                            codec,
                            settings,
                            auxiliary,
                            file,
                            heif,
                            grid,
                            size,
                            tile_format(heif, ps),
                            Ok(out),
                        ),
                    }
                };
            let size = tile_size(grid, first_hvcc(grid.tiles@, 0).len() > 0, ps)->0;
            let format = tile_format(heif, ps);
            let model = PixelGrid {
                file,
                tiles: grid.tiles@,
                fallback: first_hvcc(grid.tiles@, 0),
                color: format.color,
                geo: pixel_geometry(grid, size, format),
            };
            let pixels = if format.depth is Eight {
                let v = choose|v: Result<Vec<u8>, DecodeError>|
                    {
                        &&& #[trigger] model.composes(codec, grid.rows as int, v)
                        &&& match v {
                            Err(e) => false,
                            Ok(px) => completes_image(
                                codec,
                                settings,
                                auxiliary,
                                file,
                                heif,
                                grid.output_width,
                                grid.output_height,
                                <u8 as PixelSample>::wrapped(px@, format.mono),
                                format.depth,
                                grid.orientation,
                                Ok(out),
                            ),
                        }
                    };
                <u8 as PixelSample>::wrapped(v->Ok_0@, format.mono)
            } else {
                let v = choose|v: Result<Vec<u16>, DecodeError>|
                    {
                        &&& #[trigger] model.composes(codec, grid.rows as int, v)
                        &&& match v {
                            Err(e) => false,
                            Ok(px) => completes_image(
                                codec,
                                settings,
                                auxiliary,
                                file,
                                heif,
                                grid.output_width,
                                grid.output_height,
                                <u16 as PixelSample>::wrapped(px@, format.mono),
                                format.depth,
                                grid.orientation,
                                Ok(out),
                            ),
                        }
                    };
                <u16 as PixelSample>::wrapped(v->Ok_0@, format.mono)
            };
            lemma_completed_image_carries(
                codec,
                settings,
                auxiliary,
                file,
                heif,
                grid.output_width,
                grid.output_height,
                pixels,
                format.depth,
                grid.orientation,
                out,
            );
        },
        None => {
            let item = heif.primary;
            let d = choose|d: Result<(YuvPlanes, Cicp), DecodeError>|
                {
                    &&& #[trigger] decodes_wide(codec, item.data(file), item.hvcc@, true, d)
                    &&& match d {
                        Err(e) => false,
                        Ok((planes, vui)) => shows_image(
                            codec,
                            settings,
                            auxiliary,
                            file,
                            heif,
                            planes,
                            vui,
                            Ok(out),
                        ),
                    }
                };
            let (planes, vui) = d->Ok_0;
            let (crop, p) = choose|crop: HevcVisibleCrop, p: Result<ImageBuffer, DecodeError>|
                {
                    &&& #[trigger] crops(codec, item.hvcc@, crop)
                    &&& #[trigger] converts(
                        codec,
                        planes,
                        item.display_w as usize,
                        item.display_h as usize,
                        crop.left,
                        crop.top,
                        color_encoding(vui, item.color.cicp),
                        true,
                        p,
                    )
                    &&& match p {
                        Err(e) => false,
                        Ok(pixels) => completes_image(
                            codec,
                            settings,
                            auxiliary,
                            file,
                            heif,
                            item.display_w,
                            item.display_h,
                            pixels@,
                            planes.bit_depth,
                            item.orientation,
                            Ok(out),
                        ),
                    }
                };
            lemma_completed_image_carries(
                codec,
                settings,
                auxiliary,
                file,
                heif,
                item.display_w,
                item.display_h,
                p->Ok_0@,
                planes.bit_depth,
                item.orientation,
                out,
            );
        },
    }
    assert(parses(
        codec,
        file,
        settings.limits,
        parse_options(settings, auxiliary),
        Ok::<HeifFile, DecodeError>(heif),
    ));
}

/// Decoded planes carry the description of their container, and are not turned.
pub proof fn decoded_planes_carry_their_description<C: Codec>(
    codec: &C,
    settings: HeicSettings,
    file: Seq<u8>,
    out: DecodedYuv,
)
    requires
        decodes_yuv(codec, settings, file, Ok(out)),
    ensures
        exists|heif: HeifFile|
            {
                &&& #[trigger] parses(
                    codec,
                    file,
                    settings.limits,
                    parse_options(settings, true),
                    Ok::<HeifFile, DecodeError>(heif),
                )
                &&& out.color@ == heif.primary.color@
                &&& out.clean_aperture == heif.primary.clap
                &&& out.pixel_aspect_ratio == heif.primary.pasp
                &&& bytes_view(out.exif) == bytes_view(heif.exif)
                &&& out.orientation == match heif.grid {
                    Some(grid) => grid.orientation,
                    None => heif.primary.orientation,
                }
                &&& out.planes.luma_layout().width == match heif.grid {
                    Some(grid) => grid.output_width,
                    None => heif.primary.display_w,
                }
                &&& out.planes.luma_layout().height == match heif.grid {
                    Some(grid) => grid.output_height,
                    None => heif.primary.display_h,
                }
            },
{
    let c = choose|c: Result<HeifFile, DecodeError>|
        {
            &&& #[trigger] parses(codec, file, settings.limits, parse_options(settings, true), c)
            &&& match c {
                Err(e) => false,
                Ok(heif) => match heif.grid {
                    Some(grid) => decodes_yuv_grid(codec, settings, file, heif, grid, Ok(out)),
                    None => decodes_yuv_item(codec, settings, file, heif, Ok(out)),
                },
            }
        };
    let heif = c->Ok_0;
    match heif.grid {
        Some(grid) => {
            let g = choose|g: Result<NativeGridImage, DecodeError>|
                {
                    &&& #[trigger] decodes_native_grid(codec, settings.limits, file, grid, g)
                    &&& match g {
                        Err(e) => false,
                        Ok(image) => completes_yuv(
                            codec,
                            settings,
                            file,
                            heif,
                            image.planes,
                            grid.output_width as int,
                            grid.output_height as int,
                            image.bit_depth,
                            image.chroma,
                            grid.orientation,
                            Ok(out),
                        ),
                    }
                };
            grid_images_are_tight(codec, settings.limits, file, grid, g->Ok_0);
        },
        None => {
            assert(decodes_yuv_item(codec, settings, file, heif, Ok(out)));
        },
    }
    assert(parses(
        codec,
        file,
        settings.limits,
        parse_options(settings, true),
        Ok::<HeifFile, DecodeError>(heif),
    ));
}

/// A single image is the conversion of its decoded picture, in the size that the item announces and
/// from the visible corner, turned by the item's orientation.
pub proof fn single_images_are_converted_and_turned<C: Codec>(
    codec: &C,
    settings: HeicSettings,
    auxiliary: bool,
    file: Seq<u8>,
    heif: HeifFile,
    out: DecodedImage,
)
    requires
        decodes_image_item(codec, settings, auxiliary, file, heif, Ok(out)),
    ensures
        heif.primary.data_offset + heif.primary.data_length <= file.len(),
        exists|
            planes: YuvPlanes,
            vui: Cicp,
            crop: HevcVisibleCrop,
            p: ImageBuffer,
        |
            {
                &&& #[trigger] decodes_wide(
                    codec,
                    heif.primary.data(file),
                    heif.primary.hvcc@,
                    true,
                    Ok::<(YuvPlanes, Cicp), DecodeError>((planes, vui)),
                )
                &&& #[trigger] crops(codec, heif.primary.hvcc@, crop)
                &&& #[trigger] converts(
                    codec,
                    planes,
                    heif.primary.display_w as usize,
                    heif.primary.display_h as usize,
                    crop.left,
                    crop.top,
                    color_encoding(vui, heif.primary.color.cicp),
                    true,
                    Ok(p),
                )
                &&& out.pixels@ == p@.oriented(
                    heif.primary.display_w as int,
                    heif.primary.display_h as int,
                    heif.primary.orientation,
                )
                &&& out.bit_depth == planes.bit_depth
            },
{
    let item = heif.primary;
    let d = choose|d: Result<(YuvPlanes, Cicp), DecodeError>|
        {
            &&& #[trigger] decodes_wide(codec, item.data(file), item.hvcc@, true, d)
            &&& match d {
                Err(e) => false,
                Ok((planes, vui)) => shows_image(
                    codec,
                    settings,
                    auxiliary,
                    file,
                    heif,
                    planes,
                    vui,
                    Ok(out),
                ),
            }
        };
    let (planes, vui) = d->Ok_0;
    let (crop, p) = choose|crop: HevcVisibleCrop, p: Result<ImageBuffer, DecodeError>|
        {
            &&& #[trigger] crops(codec, item.hvcc@, crop)
            &&& #[trigger] converts(
                codec,
                planes,
                item.display_w as usize,
                item.display_h as usize,
                crop.left,
                crop.top,
                color_encoding(vui, item.color.cicp),
                true,
                p,
            )
            &&& match p {
                Err(e) => false,
                Ok(pixels) => completes_image(
                    codec,
                    settings,
                    auxiliary,
                    file,
                    heif,
                    item.display_w,
                    item.display_h,
                    pixels@,
                    planes.bit_depth,
                    item.orientation,
                    Ok(out),
                ),
            }
        };
    let pixels = p->Ok_0;
    lemma_completed_pixels(
        codec,
        settings,
        auxiliary,
        file,
        heif,
        item.display_w,
        item.display_h,
        pixels@,
        planes.bit_depth,
        item.orientation,
        out,
    );
    assert(decodes_wide(
        codec,
        item.data(file),
        item.hvcc@,
        true,
        Ok::<(YuvPlanes, Cicp), DecodeError>((planes, vui)),
    ));
    assert(converts(
        codec,
        planes,
        item.display_w as usize,
        item.display_h as usize,
        crop.left,
        crop.top,
        color_encoding(vui, item.color.cicp),
        true,
        Ok(pixels),
    ));
}

proof fn lemma_completed_pixels<C: Codec>(
    codec: &C,
    settings: HeicSettings,
    auxiliary: bool,
    file: Seq<u8>,
    heif: HeifFile,
    w: u32,
    h: u32,
    pixels: Pixels,
    depth: BitDepth,
    o: Orientation,
    out: DecodedImage,
)
    requires
        completes_image(
            codec,
            settings,
            auxiliary,
            file,
            heif,
            w,
            h,
            pixels,
            depth,
            o,
            Ok(out),
        ),
    ensures
        out.pixels@ == pixels.oriented(w as int, h as int, o),
        out.bit_depth == depth,
{
}

/// An alpha plane is turned with its image.
pub proof fn alpha_is_turned_with_the_image(
    heif: HeifFile,
    w: u32,
    h: u32,
    pixels: Pixels,
    alpha: Option<SampleBuf>,
    gain: Option<GainMap>,
    depth: BitDepth,
    o: Orientation,
    out: DecodedImage,
)
    requires
        turns_image(heif, w, h, pixels, alpha, gain, depth, o, Ok(out)),
    ensures
        alpha is None ==> out.alpha is None,
        alpha matches Some(a) ==> out.alpha is Some && out.alpha->0@ == a@.oriented(
            w as int,
            h as int,
            o,
        ),
        out.gain_map == gain,
        out.pixels@ == pixels.oriented(w as int, h as int, o),
{
}

/// Planes of a single image are the window of its decoded picture that starts at the visible corner
/// and has the size that the item announces.
pub proof fn single_planes_are_windows<C: Codec>(
    codec: &C,
    settings: HeicSettings,
    file: Seq<u8>,
    heif: HeifFile,
    planes: NativeYuvPlanes,
    out: DecodedYuv,
)
    requires
        shows_yuv(codec, settings, file, heif, planes, Ok(out)),
    ensures
        exists|crop: HevcVisibleCrop|
            {
                &&& #[trigger] crops(codec, heif.primary.hvcc@, crop)
                &&& buffer_shows(
                    out.planes,
                    planes,
                    heif.primary.display_w as int,
                    heif.primary.display_h as int,
                    crop,
                )
            },
        out.bit_depth == planes.depth(),
        out.chroma == planes.sampling(),
{
}

} // verus!
