//! Alpha planes and gain maps.
use vstd::prelude::*;
use vstd::slice::slice_subrange;
use crate::codec::{configures, decode_hevc_item_native, decodes_native, Codec};
use crate::color::{bytes_view, copy_bytes, Cicp, Color, ColorMetadata, MatrixCoefficients};
use crate::config::Sps;
use crate::error::DecodeError;
use crate::formats::{BitDepth, ChromaFormat, PlaneBuffer, SampleBuf, SamplePlane, Samples};
use crate::grid::{
    decode_native_grid_image, decodes_native_grid, grid_images_are_tight, optional,
    optional_auxiliary, NativeGridImage,
};
use crate::heif::{ExtentMessages, GridInfo, HeifFile, HeifGainMap, HeifImageSource, HeifItem};
use crate::image::{opt_samples, GainMap, GainMapFrame};
use crate::limits::ParseLimits;
use crate::metadata::Orientation;
use crate::orientation::{
    can_orient, needs_memory, option_fails, orientable, oriented_dimensions, oriented_option,
    oriented_size, output_height, output_width, rotate_option, rotate_sample_buf, source_pixel,
    turning_moves_plane_samples,
};
use crate::sample::Sample;
use crate::tiles::Pps;
use crate::window::{
    buffer_shows, keeps_buffer, luma_fails, native_to_visible_buffer, picture_fails, picture_too_large,
    plane_window, too_large, window, HevcVisibleCrop,
};
use crate::yuv::{NativePlanes, NativeYuvPlanes};

verus! {

/// Where the visible part starts if nothing is known of it.
pub open spec fn no_crop() -> HevcVisibleCrop {
    HevcVisibleCrop { left: 0, top: 0 }
}

/// `r` is where the visible part of an item starts, from its configuration record; one that cannot
/// be parsed says nothing.
pub open spec fn crops<C: Codec>(codec: &C, hvcc: Seq<u8>, r: HevcVisibleCrop) -> bool {
    exists|ps: Result<(Sps, Pps), DecodeError>|
        #[trigger] configures(codec, hvcc, ps) && r == match ps {
            Ok((sps, _)) => sps.crop(),
            Err(_) => no_crop(),
        }
}

/// Where the visible part of an item starts.
pub fn visible_crop_from_hvcc<C: Codec>(codec: &C, hvcc: &[u8]) -> (r: HevcVisibleCrop)
    ensures
        crops(codec, hvcc@, r),
{
    let ps: Result<(Sps, Pps), DecodeError> = codec.param_sets(hvcc);
    assert(configures(codec, hvcc@, ps));
    match ps {
        Ok((sps, _)) => sps.visible_crop(),
        Err(_) => HevcVisibleCrop { left: 0, top: 0 },
    }
}

/// `r` is the visible luma plane of a picture.
pub open spec fn luma_window<T: Sample>(
    planes: NativePlanes<T>,
    dw: int,
    dh: int,
    crop: HevcVisibleCrop,
    r: Result<PlaneBuffer<T>, DecodeError>,
) -> bool {
    &&& match r {
        Ok(p) => {
            &&& p.wf()
            &&& p@ == window(
                planes.y@,
                planes.width as int,
                planes.height as int,
                crop.left as int,
                crop.top as int,
                dw,
                dh,
            )
            &&& keeps_buffer(
                p,
                planes.y@,
                planes.width as int,
                planes.height as int,
                crop.left as int,
                crop.top as int,
                dw,
                dh,
            )
        },
        Err(e) => luma_fails(planes, dw, dh, crop, e),
    }
    &&& too_large(planes, dw, dh, crop) ==> r is Err
}

/// `r` is the visible luma plane of a picture in its sample type.
pub open spec fn plane_of(
    planes: NativeYuvPlanes,
    dw: int,
    dh: int,
    crop: HevcVisibleCrop,
    r: Result<SamplePlane, DecodeError>,
) -> bool {
    match planes {
        NativeYuvPlanes::U8(p) => match r {
            Ok(SamplePlane::U8(out)) => luma_window(p, dw, dh, crop, Ok(out)),
            Ok(_) => false,
            Err(e) => luma_window(p, dw, dh, crop, Err(e)),
        },
        NativeYuvPlanes::U16(p) => match r {
            Ok(SamplePlane::U16(out)) => luma_window(p, dw, dh, crop, Ok(out)),
            Ok(_) => false,
            Err(e) => luma_window(p, dw, dh, crop, Err(e)),
        },
    }
}

/// The visible luma plane of a picture.
pub fn visible_plane(planes: NativeYuvPlanes, dw: usize, dh: usize, crop: HevcVisibleCrop) -> (r:
    Result<SamplePlane, DecodeError>)
    ensures
        plane_of(planes, dw as int, dh as int, crop, r),
        r matches Ok(p) ==> p.wf(),
{
    match planes {
        NativeYuvPlanes::U8(p) => match plane_window(
            p.y,
            p.width,
            p.height,
            crop.left,
            crop.top,
            dw,
            dh,
        ) {
            Ok(v) => Ok(SamplePlane::U8(v)),
            Err(e) => Err(e),
        },
        NativeYuvPlanes::U16(p) => match plane_window(
            p.y,
            p.width,
            p.height,
            crop.left,
            crop.top,
            dw,
            dh,
        ) {
            Ok(v) => Ok(SamplePlane::U16(v)),
            Err(e) => Err(e),
        },
    }
}

/// An alpha image can be decoded: there is one, with a configuration record and data in the file.
pub open spec fn has_alpha(alpha: Option<HeifItem>, len: int) -> bool {
    alpha matches Some(item) && item.hvcc@.len() > 0 && item.in_file(len)
}

/// `r` is the alpha plane of an image: the luma plane of the alpha item, cut to the size of the
/// image. An alpha image that cannot be decoded counts as absent.
pub open spec fn decodes_alpha<C: Codec>(
    codec: &C,
    file: Seq<u8>,
    alpha: Option<HeifItem>,
    dw: int,
    dh: int,
    r: Result<Option<SamplePlane>, DecodeError>,
) -> bool {
    if !has_alpha(alpha, file.len() as int) {
        r == Ok::<Option<SamplePlane>, DecodeError>(None)
    } else {
        let item = alpha->0;
        exists|d: Result<(NativeYuvPlanes, Cicp), DecodeError>|
            {
                &&& #[trigger] decodes_native(codec, item.data(file), item.hvcc@, true, d)
                &&& match optional(d) {
                    Err(e) => r == Err::<Option<SamplePlane>, DecodeError>(e),
                    Ok(None) => r == Ok::<Option<SamplePlane>, DecodeError>(None),
                    Ok(Some((planes, _))) => exists|crop: HevcVisibleCrop|
                        {
                            &&& #[trigger] crops(codec, item.hvcc@, crop)
                            &&& match r {
                                Ok(Some(p)) => plane_of(planes, dw, dh, crop, Ok(p)),
                                Ok(None) => false,
                                Err(e) => plane_of(planes, dw, dh, crop, Err(e)),
                            }
                        },
                }
            }
    }
}

/// Decodes the alpha plane of an image.
pub fn decode_alpha_plane_native<C: Codec>(
    codec: &C,
    file: &[u8],
    heif: &HeifFile,
    dw: usize,
    dh: usize,
) -> (r: Result<Option<SamplePlane>, DecodeError>)
    ensures
        decodes_alpha(codec, file@, heif.alpha, dw as int, dh as int, r),
        r matches Ok(Some(p)) ==> p.wf(),
{
    let alpha: &HeifItem = match &heif.alpha {
        Some(a) => a,
        None => return Ok(None),
    };
    if alpha.hvcc.len() == 0 {
        return Ok(None);
    }
    let (start, end): (usize, usize) = match alpha.range_in(file.len()) {
        Some(t) => t,
        None => return Ok(None),
    };
    let d: Result<(NativeYuvPlanes, Cicp), DecodeError> = decode_hevc_item_native(
        codec,
        slice_subrange(file, start, end),
        alpha.hvcc.as_slice(),
        true,
    );
    assert(decodes_native(codec, alpha.data(file@), alpha.hvcc@, true, d));
    let planes: NativeYuvPlanes = match optional_auxiliary(d) {
        Ok(Some((p, _))) => p,
        Ok(None) => return Ok(None),
        Err(e) => return Err(e),
    };
    let crop: HevcVisibleCrop = visible_crop_from_hvcc(codec, alpha.hvcc.as_slice());
    assert(crops(codec, alpha.hvcc@, crop));
    match visible_plane(planes, dw, dh, crop) {
        Ok(p) => Ok(Some(p)),
        Err(e) => Err(e),
    }
}

/// Samples of a plane without padding.
pub open spec fn tight_samples(p: SamplePlane) -> Samples {
    match p {
        SamplePlane::U8(b) => Samples::U8(b.raster()),
        SamplePlane::U16(b) => Samples::U16(b.raster()),
    }
}

/// `e` says that there is no memory for a copy of a padded plane.
pub open spec fn alpha_copy_fails(p: SamplePlane, e: DecodeError) -> bool {
    match p {
        SamplePlane::U8(b) => b.copy_fails(e),
        SamplePlane::U16(b) => b.copy_fails(e),
    }
}

/// `r` is the alpha plane of an image without padding.
pub open spec fn decodes_tight_alpha<C: Codec>(
    codec: &C,
    file: Seq<u8>,
    alpha: Option<HeifItem>,
    dw: int,
    dh: int,
    r: Result<Option<SampleBuf>, DecodeError>,
) -> bool {
    exists|a: Result<Option<SamplePlane>, DecodeError>|
        {
            &&& #[trigger] decodes_alpha(codec, file, alpha, dw, dh, a)
            &&& match a {
                Err(e) => r == Err::<Option<SampleBuf>, DecodeError>(e),
                Ok(None) => r == Ok::<Option<SampleBuf>, DecodeError>(None),
                Ok(Some(p)) => match r {
                    Ok(Some(s)) => s@ == tight_samples(p),
                    Ok(None) => false,
                    Err(e) => alpha_copy_fails(p, e),
                },
            }
        }
}

/// Decodes the alpha plane of an image and removes its padding.
pub fn decode_alpha_plane<C: Codec>(codec: &C, file: &[u8], heif: &HeifFile, dw: usize, dh: usize) -> (r:
    Result<Option<SampleBuf>, DecodeError>)
    ensures
        decodes_tight_alpha(codec, file@, heif.alpha, dw as int, dh as int, r),
{
    let a: Result<Option<SamplePlane>, DecodeError> = decode_alpha_plane_native(
        codec,
        file,
        heif,
        dw,
        dh,
    );
    assert(decodes_alpha(codec, file@, heif.alpha, dw as int, dh as int, a));
    match a {
        Err(e) => Err(e),
        Ok(None) => Ok(None),
        Ok(Some(SamplePlane::U8(p))) => match p.into_tight() {
            Ok(v) => Ok(Some(SampleBuf::U8(v))),
            Err(e) => Err(e),
        },
        Ok(Some(SamplePlane::U16(p))) => match p.into_tight() {
            Ok(v) => Ok(Some(SampleBuf::U16(v))),
            Err(e) => Err(e),
        },
    }
}

/// Colour information of a gain map: that of its item, with the code points of the sequence if
/// those are specified.
pub open spec fn gain_map_color(item: Color, vui: Cicp) -> Color {
    if vui.matrix is Unspecified {
        item
    } else {
        Color { cicp: Some(vui), icc: item.icc }
    }
}

/// Colour information of a gain map.
pub fn gain_map_color_metadata(item_color: &ColorMetadata, vui_color: Cicp) -> (r: ColorMetadata)
    ensures
        r@ == gain_map_color(item_color@, vui_color),
{
    let mut color: ColorMetadata = item_color.duplicate();
    if vui_color.matrix != MatrixCoefficients::Unspecified {
        color.cicp = Some(vui_color);
    }
    color
}

/// What is said of gain-map data that cannot be found.
pub open spec fn gain_map_messages() -> ExtentMessages {
    ExtentMessages {
        offset: "gain-map data offset exceeds usize",
        length: "gain-map data length exceeds usize",
        range: "gain-map data range overflows usize",
        end: "gain-map data extends past file end",
    }
}

/// `r` is the size of an item that does not announce one: the visible size of its sequence, or the
/// coded size if the configuration record cannot be parsed.
pub open spec fn sizes<C: Codec>(
    codec: &C,
    hvcc: Seq<u8>,
    planes: NativeYuvPlanes,
    r: (u32, u32),
) -> bool {
    exists|ps: Result<(Sps, Pps), DecodeError>|
        #[trigger] configures(codec, hvcc, ps) && match ps {
            Ok((sps, _)) => (r.0 as int, r.1 as int) == sps.visible(),
            Err(_) => r == (planes.size().0 as u32, planes.size().1 as u32),
        }
}

fn fallback_size<C: Codec>(codec: &C, hvcc: &[u8], planes: &NativeYuvPlanes) -> (r: (u32, u32))
    ensures
        sizes(codec, hvcc@, *planes, r),
{
    let ps: Result<(Sps, Pps), DecodeError> = codec.param_sets(hvcc);
    assert(configures(codec, hvcc@, ps));
    match ps {
        Ok((sps, _)) => sps.visible_size(),
        Err(_) => {
            let (w, h): (usize, usize) = planes.dims();
            (w as u32, h as u32)
        },
    }
}

/// The announced extent, or another one if that is zero.
pub open spec fn announced(display: u32, fallback: u32) -> u32 {
    if display == 0 {
        fallback
    } else {
        display
    }
}

/// `r` is the frame of a decoded gain-map item: its visible part, within the limits.
pub open spec fn frames(
    limits: ParseLimits,
    item: HeifItem,
    planes: NativeYuvPlanes,
    vui: Cicp,
    crop: HevcVisibleCrop,
    w: u32,
    h: u32,
    r: Result<GainMapFrame, DecodeError>,
) -> bool {
    match limits.complaint(w, h) {
        Some(e) => r == Err::<GainMapFrame, DecodeError>(e),
        None => {
            &&& match r {
                Ok(f) => {
                    &&& f.planes.wf()
                    &&& buffer_shows(f.planes, planes, w as int, h as int, crop)
                    &&& f.bit_depth == planes.depth()
                    &&& f.chroma == planes.sampling()
                    &&& f.color@ == gain_map_color(item.color@, vui)
                    &&& f.orientation == item.orientation
                    &&& f.metadata is None
                },
                Err(e) => picture_fails(planes, w as int, h as int, crop, e),
            }
            &&& picture_too_large(planes, w as int, h as int, crop) ==> r is Err
        },
    }
}

/// `r` is the frame of a gain-map item.
pub open spec fn decodes_gain_item<C: Codec>(
    codec: &C,
    limits: ParseLimits,
    file: Seq<u8>,
    item: HeifItem,
    r: Result<GainMapFrame, DecodeError>,
) -> bool {
    if !item.in_file(file.len() as int) {
        r == Err::<GainMapFrame, DecodeError>(item.extent_error(gain_map_messages()))
    } else {
        exists|d: Result<(NativeYuvPlanes, Cicp), DecodeError>|
            {
                &&& #[trigger] decodes_native(codec, item.data(file), item.hvcc@, true, d)
                &&& match d {
                    Err(e) => r == Err::<GainMapFrame, DecodeError>(e),
                    Ok((planes, vui)) => exists|crop: HevcVisibleCrop, size: (u32, u32)|
                        {
                            &&& #[trigger] crops(codec, item.hvcc@, crop)
                            &&& #[trigger] sizes(codec, item.hvcc@, planes, size)
                            &&& frames(
                                limits,
                                item,
                                planes,
                                vui,
                                crop,
                                announced(item.display_w, size.0),
                                announced(item.display_h, size.1),
                                r,
                            )
                        },
                }
            }
    }
}

/// Decodes a gain map that is a single item.
pub fn decode_gain_map_frame_item<C: Codec>(
    codec: &C,
    limits: &ParseLimits,
    file: &[u8],
    item: &HeifItem,
) -> (r: Result<GainMapFrame, DecodeError>)
    ensures
        decodes_gain_item(codec, *limits, file@, *item, r),
        r matches Ok(f) ==> f.planes.wf(),
{
    let m: ExtentMessages = ExtentMessages {
        offset: "gain-map data offset exceeds usize",
        length: "gain-map data length exceeds usize",
        range: "gain-map data range overflows usize",
        end: "gain-map data extends past file end",
    };
    let (start, end): (usize, usize) = match item.extent(file.len(), m) {
        Ok(t) => t,
        Err(e) => return Err(e),
    };
    let d: Result<(NativeYuvPlanes, Cicp), DecodeError> = decode_hevc_item_native(
        codec,
        slice_subrange(file, start, end),
        item.hvcc.as_slice(),
        true,
    );
    assert(decodes_native(codec, item.data(file@), item.hvcc@, true, d));
    let (planes, vui_color): (NativeYuvPlanes, Cicp) = match d {
        Ok(t) => t,
        Err(e) => return Err(e),
    };
    let crop: HevcVisibleCrop = visible_crop_from_hvcc(codec, item.hvcc.as_slice());
    assert(crops(codec, item.hvcc@, crop));
    let size: (u32, u32) = fallback_size(codec, item.hvcc.as_slice(), &planes);
    assert(sizes(codec, item.hvcc@, planes, size));
    let width: u32 = if item.display_w == 0 {
        size.0
    } else {
        item.display_w
    };
    let height: u32 = if item.display_h == 0 {
        size.1
    } else {
        item.display_h
    };
    match limits.check_image(width, height) {
        Ok(()) => {},
        Err(e) => {
            let r: Result<GainMapFrame, DecodeError> = Err(e);
            assert(frames(*limits, *item, planes, vui_color, crop, width, height, r));
            return r;
        },
    }
    let ghost picture = planes;
    let bit_depth: BitDepth = planes.bit_depth();
    let chroma: ChromaFormat = planes.chroma();
    let r: Result<GainMapFrame, DecodeError> = match native_to_visible_buffer(
        planes,
        width as usize,
        height as usize,
        crop,
    ) {
        Ok(visible) => Ok(
            GainMapFrame {
                planes: visible,
                bit_depth,
                chroma,
                color: gain_map_color_metadata(&item.color, vui_color),
                orientation: item.orientation,
                metadata: None,
            },
        ),
        Err(e) => Err(e),
    };
    assert(frames(*limits, *item, picture, vui_color, crop, width, height, r));
    r
}

/// The first colour information among the tiles from number `k` on, or that of the first tile.
pub open spec fn tiles_color(tiles: Seq<HeifItem>, k: int) -> Color
    decreases tiles.len() - k,
{
    if k >= tiles.len() {
        tiles[0].color@
    } else if !tiles[k].color.says_nothing() {
        tiles[k].color@
    } else {
        tiles_color(tiles, k + 1)
    }
}

/// Colour information of a grid: its own, or else that of its tiles.
pub open spec fn grid_color(grid: GridInfo) -> Color {
    if grid.color.says_nothing() {
        tiles_color(grid.tiles@, 0)
    } else {
        grid.color@
    }
}

fn grid_color_of(grid: &GridInfo) -> (r: &ColorMetadata)
    requires
        grid.tiles@.len() > 0,
    ensures
        r@ == grid_color(*grid),
{
    if !grid.color.is_empty() {
        return &grid.color;
    }
    let mut k: usize = 0;
    while k < grid.tiles.len()
        invariant
            k <= grid.tiles@.len(),
            grid.color.says_nothing(),
            grid_color(*grid) == tiles_color(grid.tiles@, k as int),
        decreases grid.tiles@.len() - k,
    {
        if !grid.tiles[k].color.is_empty() {
            return &grid.tiles[k].color;
        }
        k = k + 1;
    }
    &grid.tiles[0].color
}

/// `r` is the frame of a gain map made of tiles.
pub open spec fn decodes_gain_grid<C: Codec>(
    codec: &C,
    limits: ParseLimits,
    file: Seq<u8>,
    grid: GridInfo,
    r: Result<GainMapFrame, DecodeError>,
) -> bool {
    exists|g: Result<NativeGridImage, DecodeError>|
        {
            &&& #[trigger] decodes_native_grid(codec, limits, file, grid, g)
            &&& match g {
                Err(e) => r == Err::<GainMapFrame, DecodeError>(e),
                Ok(image) => r matches Ok(f) && {
                    &&& f.planes == image.planes
                    &&& f.bit_depth == image.bit_depth
                    &&& f.chroma == image.chroma
                    &&& f.color@ == gain_map_color(grid_color(grid), image.vui_color)
                    &&& f.orientation == grid.orientation
                    &&& f.metadata is None
                },
            }
        }
}

/// Decodes a gain map made of tiles.
pub fn decode_gain_map_frame_grid<C: Codec>(
    codec: &C,
    limits: &ParseLimits,
    file: &[u8],
    grid: &GridInfo,
) -> (r: Result<GainMapFrame, DecodeError>)
    ensures
        decodes_gain_grid(codec, *limits, file@, *grid, r),
        r matches Ok(f) ==> f.planes.wf(),
{
    let g: Result<NativeGridImage, DecodeError> = decode_native_grid_image(
        codec,
        limits,
        file,
        grid,
    );
    assert(decodes_native_grid(codec, *limits, file@, *grid, g));
    let decoded: NativeGridImage = match g {
        Ok(v) => v,
        Err(e) => return Err(e),
    };
    let color: ColorMetadata = gain_map_color_metadata(grid_color_of(grid), decoded.vui_color);
    Ok(
        GainMapFrame {
            planes: decoded.planes,
            bit_depth: decoded.bit_depth,
            chroma: decoded.chroma,
            color,
            orientation: grid.orientation,
            metadata: None,
        },
    )
}

/// `r` is the frame of a gain map, from an item or from tiles.
pub open spec fn decodes_gain_source<C: Codec>(
    codec: &C,
    limits: ParseLimits,
    file: Seq<u8>,
    source: HeifImageSource,
    r: Result<GainMapFrame, DecodeError>,
) -> bool {
    match source {
        HeifImageSource::Item(item) => decodes_gain_item(codec, limits, file, item, r),
        HeifImageSource::Grid(grid) => decodes_gain_grid(codec, limits, file, grid, r),
    }
}

/// `r` is the gain map of an image with its metadata. One that cannot be decoded counts as absent.
pub open spec fn decodes_gain_frame<C: Codec>(
    codec: &C,
    limits: ParseLimits,
    file: Seq<u8>,
    gain: Option<HeifGainMap>,
    r: Result<Option<GainMapFrame>, DecodeError>,
) -> bool {
    match gain {
        None => r == Ok::<Option<GainMapFrame>, DecodeError>(None),
        Some(g) => exists|d: Result<GainMapFrame, DecodeError>|
            {
                &&& #[trigger] decodes_gain_source(codec, limits, file, g.image, d)
                &&& match optional(d) {
                    Err(e) => r == Err::<Option<GainMapFrame>, DecodeError>(e),
                    Ok(None) => r == Ok::<Option<GainMapFrame>, DecodeError>(None),
                    Ok(Some(f)) => r matches Ok(Some(out)) && {
                        &&& out == (GainMapFrame { metadata: out.metadata, ..f })
                        &&& bytes_view(out.metadata) == bytes_view(g.metadata)
                    },
                }
            },
    }
}

/// Decodes the gain map of an image.
pub fn decode_gain_map_frame<C: Codec>(
    codec: &C,
    limits: &ParseLimits,
    file: &[u8],
    heif: &HeifFile,
) -> (r: Result<Option<GainMapFrame>, DecodeError>)
    ensures
        decodes_gain_frame(codec, *limits, file@, heif.gain_map, r),
        r matches Ok(Some(f)) ==> f.planes.wf(),
{
    let gain: &HeifGainMap = match &heif.gain_map {
        Some(g) => g,
        None => return Ok(None),
    };
    let d: Result<GainMapFrame, DecodeError> = match &gain.image {
        HeifImageSource::Item(item) => decode_gain_map_frame_item(codec, limits, file, item),
        HeifImageSource::Grid(grid) => decode_gain_map_frame_grid(codec, limits, file, grid),
    };
    assert(decodes_gain_source(codec, *limits, file@, gain.image, d));
    match optional_auxiliary(d) {
        Err(e) => Err(e),
        Ok(None) => Ok(None),
        Ok(Some(f)) => Ok(
            Some(
                GainMapFrame {
                    planes: f.planes,
                    bit_depth: f.bit_depth,
                    chroma: f.chroma,
                    color: f.color,
                    orientation: f.orientation,
                    metadata: copy_bytes(&gain.metadata),
                },
            ),
        ),
    }
}

impl GainMap {
    /// All planes can be turned.
    pub open spec fn can_turn(self) -> bool {
        &&& can_orient(
            self.orientation,
            self.y@.len(),
            self.width as int,
            self.height as int,
            1,
        )
        &&& self.cb matches Some(s) ==> can_orient(
            self.orientation,
            s@.len(),
            self.chroma_width as int,
            self.chroma_height as int,
            1,
        )
        &&& self.cr matches Some(s) ==> can_orient(
            self.orientation,
            s@.len(),
            self.chroma_width as int,
            self.chroma_height as int,
            1,
        )
    }

    /// `g` is the gain map turned for display.
    pub open spec fn turns_to(self, g: GainMap) -> bool {
        let o = self.orientation;
        let (w, h) = (self.width as int, self.height as int);
        let (cw, ch) = (self.chroma_width as int, self.chroma_height as int);
        &&& (g.width, g.height) == oriented_size(self.width, self.height, o)
        &&& (g.chroma_width, g.chroma_height) == if self.chroma is Monochrome {
            (0u32, 0u32)
        } else {
            oriented_size(self.chroma_width, self.chroma_height, o)
        }
        &&& g.y@ == self.y@.oriented(w, h, o)
        &&& opt_samples(g.cb) == oriented_option(opt_samples(self.cb), cw, ch, o)
        &&& opt_samples(g.cr) == oriented_option(opt_samples(self.cr), cw, ch, o)
        &&& g.chroma == self.chroma
        &&& g.bit_depth == self.bit_depth
        &&& g.color == self.color
        &&& g.orientation == o
        &&& g.metadata == self.metadata
    }

    /// `e` says that there is no memory to turn one of the planes.
    pub open spec fn turn_fails(self, e: DecodeError) -> bool {
        &&& needs_memory(self.orientation)
        &&& e == self.y@.turn_failure() || option_fails(opt_samples(self.cb), e) || option_fails(
            opt_samples(self.cr),
            e,
        )
    }

    /// Turns all planes for display.
    pub fn apply_orientation(self) -> (r: Result<GainMap, DecodeError>)
        requires
            self.can_turn(),
        ensures
            match r {
                Ok(g) => self.turns_to(g),
                Err(e) => self.turn_fails(e),
            },
    {
        let o: Orientation = self.orientation;
        let (width, height): (u32, u32) = oriented_dimensions(self.width, self.height, o);
        let (chroma_width, chroma_height): (u32, u32) = if self.chroma.is_monochrome() {
            (0, 0)
        } else {
            oriented_dimensions(self.chroma_width, self.chroma_height, o)
        };
        let y: SampleBuf = match rotate_sample_buf(self.y, self.width, self.height, o) {
            Ok(v) => v,
            Err(e) => return Err(e),
        };
        let cb: Option<SampleBuf> = match rotate_option(
            self.cb,
            self.chroma_width,
            self.chroma_height,
            o,
        ) {
            Ok(v) => v,
            Err(e) => return Err(e),
        };
        let cr: Option<SampleBuf> = match rotate_option(
            self.cr,
            self.chroma_width,
            self.chroma_height,
            o,
        ) {
            Ok(v) => v,
            Err(e) => return Err(e),
        };
        Ok(
            GainMap {
                width,
                height,
                chroma_width,
                chroma_height,
                y,
                cb,
                cr,
                chroma: self.chroma,
                bit_depth: self.bit_depth,
                color: self.color,
                orientation: o,
                metadata: self.metadata,
            },
        )
    }
}

/// Number of samples in a buffer.
pub fn sample_count(s: &SampleBuf) -> (r: usize)
    ensures
        r == s@.len(),
{
    match s {
        SampleBuf::U8(v) => v.len(),
        SampleBuf::U16(v) => v.len(),
    }
}

/// Whether an optional plane can be turned.
pub fn option_orientable(
    s: &Option<SampleBuf>,
    w: u32,
    h: u32,
    o: Orientation,
) -> (r: bool)
    ensures
        r == (*s matches Some(b) ==> can_orient(o, b@.len(), w as int, h as int, 1)),
{
    match s {
        Some(b) => orientable(o, sample_count(b), w, h, 1),
        None => true,
    }
}

/// `r` is the gain map turned for display; planes that do not fit their size cannot be turned.
pub open spec fn turned_gain_map(packed: GainMap, r: Result<GainMap, DecodeError>) -> bool {
    if packed.can_turn() {
        match r {
            Ok(g) => packed.turns_to(g),
            Err(e) => packed.turn_fails(e),
        }
    } else {
        r == Err::<GainMap, DecodeError>(DecodeError::Bitstream("gain-map planes do not fit"))
    }
}

/// `r` is the gain map of an image without padding, turned for display if asked.
pub open spec fn decodes_gain_map<C: Codec>(
    codec: &C,
    limits: ParseLimits,
    file: Seq<u8>,
    gain: Option<HeifGainMap>,
    turn: bool,
    r: Result<Option<GainMap>, DecodeError>,
) -> bool {
    exists|f: Result<Option<GainMapFrame>, DecodeError>|
        {
            &&& #[trigger] decodes_gain_frame(codec, limits, file, gain, f)
            &&& match f {
                Err(e) => r == Err::<Option<GainMap>, DecodeError>(e),
                Ok(None) => r == Ok::<Option<GainMap>, DecodeError>(None),
                Ok(Some(frame)) => packs_and_turns(frame, turn, r),
            }
        }
}

/// `r` is a frame without padding, turned for display if asked.
pub open spec fn packs_and_turns(
    frame: GainMapFrame,
    turn: bool,
    r: Result<Option<GainMap>, DecodeError>,
) -> bool {
    ||| r matches Err(e) && frame.planes.copy_fails(e)
    ||| exists|packed: GainMap|
        {
            &&& #[trigger] frame.packs_to(packed)
            &&& if turn {
                match r {
                    Ok(Some(g)) => turned_gain_map(packed, Ok(g)),
                    Ok(None) => false,
                    Err(e) => turned_gain_map(packed, Err(e)),
                }
            } else {
                r == Ok::<Option<GainMap>, DecodeError>(Some(packed))
            }
        }
}

/// Decodes the gain map of an image and removes its padding.
pub fn decode_gain_map<C: Codec>(
    codec: &C,
    limits: &ParseLimits,
    file: &[u8],
    heif: &HeifFile,
    apply_orientation: bool,
) -> (r: Result<Option<GainMap>, DecodeError>)
    ensures
        decodes_gain_map(codec, *limits, file@, heif.gain_map, apply_orientation, r),
{
    let f: Result<Option<GainMapFrame>, DecodeError> = decode_gain_map_frame(
        codec,
        limits,
        file,
        heif,
    );
    assert(decodes_gain_frame(codec, *limits, file@, heif.gain_map, f));
    let frame: GainMapFrame = match f {
        Ok(Some(frame)) => frame,
        Ok(None) => return Ok(None),
        Err(e) => return Err(e),
    };
    let ghost frame0 = frame;
    let packed: GainMap = match frame.into_packed() {
        Ok(g) => g,
        Err(e) => {
            let r: Result<Option<GainMap>, DecodeError> = Err(e);
            assert(packs_and_turns(frame0, apply_orientation, r));
            return r;
        },
    };
    assert(frame0.packs_to(packed));
    if !apply_orientation {
        let r: Result<Option<GainMap>, DecodeError> = Ok(Some(packed));
        assert(packs_and_turns(frame0, apply_orientation, r));
        return r;
    }
    let o: Orientation = packed.orientation;
    let fits: bool = orientable(o, sample_count(&packed.y), packed.width, packed.height, 1)
        && option_orientable(&packed.cb, packed.chroma_width, packed.chroma_height, o)
        && option_orientable(&packed.cr, packed.chroma_width, packed.chroma_height, o);
    assert(fits == packed.can_turn());
    let ghost packed0 = packed;
    let r: Result<Option<GainMap>, DecodeError> = if fits {
        match packed.apply_orientation() {
            Ok(g) => Ok(Some(g)),
            Err(e) => Err(e),
        }
    } else {
        Err(DecodeError::Bitstream("gain-map planes do not fit"))
    };
    assert(packs_and_turns(frame0, apply_orientation, r));
    r
}

/// An auxiliary image that fails for any reason but want of memory never fails the image it belongs
/// to.
pub proof fn broken_auxiliary_is_absent<T>(r: Result<T, DecodeError>)
    ensures
        optional(r) is Err <==> (r is Err && r->Err_0 is AllocationFailed),
        optional(r) matches Ok(Some(v)) ==> r == Ok::<T, DecodeError>(v),
        r is Ok ==> optional(r) == Ok::<Option<T>, DecodeError>(Some(r->Ok_0)),
{
}

/// A gain map has chroma planes unless it is monochrome; then its chroma size is zero.
pub proof fn monochrome_gain_maps_have_no_chroma<C: Codec>(
    codec: &C,
    limits: ParseLimits,
    file: Seq<u8>,
    gain: Option<HeifGainMap>,
    turn: bool,
    g: GainMap,
)
    requires
        decodes_gain_map(codec, limits, file, gain, turn, Ok(Some(g))),
    ensures
        if g.chroma is Monochrome {
            g.cb is None && g.cr is None && g.chroma_width == 0 && g.chroma_height == 0
        } else {
            g.cb is Some && g.cr is Some
        },
{
    let f = choose|f: Result<Option<GainMapFrame>, DecodeError>|
        {
            &&& #[trigger] decodes_gain_frame(codec, limits, file, gain, f)
            &&& match f {
                Err(e) => false,
                Ok(None) => false,
                Ok(Some(frame)) => packs_and_turns(frame, turn, Ok(Some(g))),
            }
        };
    let frame = f->Ok_0->0;
    lemma_frame_chroma(codec, limits, file, gain, frame);
    assert(packs_and_turns(frame, turn, Ok(Some(g))));
}

proof fn lemma_frame_chroma<C: Codec>(
    codec: &C,
    limits: ParseLimits,
    file: Seq<u8>,
    gain: Option<HeifGainMap>,
    frame: GainMapFrame,
)
    requires
        decodes_gain_frame(codec, limits, file, gain, Ok(Some(frame))),
    ensures
        if frame.chroma is Monochrome {
            frame.planes.is_grey()
        } else {
            frame.planes.has_color()
        },
{
    let image = gain->0.image;
    let d = choose|d: Result<GainMapFrame, DecodeError>|
        {
            &&& #[trigger] decodes_gain_source(codec, limits, file, image, d)
            &&& match optional(d) {
                Err(e) => false,
                Ok(None) => false,
                Ok(Some(f)) => frame == (GainMapFrame { metadata: frame.metadata, ..f }),
            }
        };
    let f = d->Ok_0;
    match image {
        HeifImageSource::Item(item) => {
            assert(decodes_gain_item(codec, limits, file, item, Ok(f)));
        },
        HeifImageSource::Grid(grid) => {
            let g = choose|g: Result<NativeGridImage, DecodeError>|
                {
                    &&& #[trigger] decodes_native_grid(codec, limits, file, grid, g)
                    &&& g matches Ok(image) && f.planes == image.planes && f.chroma == image.chroma
                };
            grid_images_are_tight(codec, limits, file, grid, g->Ok_0);
        },
    }
}

/// A gain map's colours are those of its bitstream, or those of its item where the bitstream says
/// nothing; a profile is always the item's.
pub proof fn gain_map_colours_prefer_the_bitstream(item: Color, vui: Cicp)
    ensures
        vui.matrix is Unspecified ==> gain_map_color(item, vui) == item,
        !(vui.matrix is Unspecified) ==> gain_map_color(item, vui).cicp == Some(vui),
        gain_map_color(item, vui).icc == item.icc,
{
}

/// A grid without a colour description has that of its first tile with one.
pub proof fn grids_have_the_colours_of_a_tile(grid: GridInfo, j: int, k: int)
    requires
        0 <= j <= k < grid.tiles@.len(),
        !grid.tiles@[k].color.says_nothing(),
        forall|i: int| 0 <= i < k ==> (#[trigger] grid.tiles@[i]).color.says_nothing(),
    ensures
        tiles_color(grid.tiles@, j) == grid.tiles@[k].color@,
        grid.color.says_nothing() ==> grid_color(grid) == grid.tiles@[k].color@,
        !grid.color.says_nothing() ==> grid_color(grid) == grid.color@,
    decreases k - j,
{
    if j < k {
        assert(grid.tiles@[j].color.says_nothing());
        grids_have_the_colours_of_a_tile(grid, j + 1, k);
    } else if j > 0 {
        lemma_colours_from_the_start(grid.tiles@, 0, k);
    }
}

proof fn lemma_colours_from_the_start(tiles: Seq<HeifItem>, j: int, k: int)
    requires
        0 <= j <= k < tiles.len(),
        !tiles[k].color.says_nothing(),
        forall|i: int| 0 <= i < k ==> (#[trigger] tiles[i]).color.says_nothing(),
    ensures
        tiles_color(tiles, j) == tiles[k].color@,
    decreases k - j,
{
    if j < k {
        assert(tiles[j].color.says_nothing());
        lemma_colours_from_the_start(tiles, j + 1, k);
    }
}

/// A size that an item announces counts; otherwise that of its picture does.
pub proof fn announced_sizes_count(display: u32, fallback: u32)
    ensures
        display > 0 ==> announced(display, fallback) == display,
        display == 0 ==> announced(display, fallback) == fallback,
{
}

/// An alpha item is decoded if it has a configuration and lies in the file. It is cut to the size
/// of the image; one that cannot be decoded is left out.
pub proof fn alpha_planes_have_the_image_size<C: Codec>(
    codec: &C,
    file: Seq<u8>,
    alpha: Option<HeifItem>,
    dw: int,
    dh: int,
    r: Result<Option<SamplePlane>, DecodeError>,
)
    requires
        decodes_alpha(codec, file, alpha, dw, dh, r),
    ensures
        alpha is None ==> r == Ok::<Option<SamplePlane>, DecodeError>(None),
        alpha matches Some(item) ==> item.hvcc@.len() == 0 || item.data_offset + item.data_length
            > file.len() ==> r == Ok::<Option<SamplePlane>, DecodeError>(None),
        r matches Ok(Some(SamplePlane::U8(p))) ==> p@.width == dw && p@.height == dh,
        r matches Ok(Some(SamplePlane::U16(p))) ==> p@.width == dw && p@.height == dh,
{
}

/// A container without a gain map gives none, and a gain map carries the metadata of its container.
pub proof fn gain_maps_carry_their_metadata<C: Codec>(
    codec: &C,
    limits: ParseLimits,
    file: Seq<u8>,
    gain: Option<HeifGainMap>,
    r: Result<Option<GainMapFrame>, DecodeError>,
)
    requires
        decodes_gain_frame(codec, limits, file, gain, r),
    ensures
        gain is None ==> r == Ok::<Option<GainMapFrame>, DecodeError>(None),
        r matches Ok(Some(f)) ==> gain is Some && bytes_view(f.metadata) == bytes_view(
            gain->0.metadata,
        ),
        r matches Ok(Some(f)) ==> f.orientation == (match gain->0.image {
            HeifImageSource::Item(item) => item.orientation,
            HeifImageSource::Grid(grid) => grid.orientation,
        }),
{
}

/// A gain map is turned plane by plane, each in its own size.
pub proof fn gain_maps_are_turned_by_plane(m: GainMap, g: GainMap, x: int, y: int)
    requires
        m.turns_to(g),
        m.y@.len() == m.width * m.height,
        0 <= x < output_width(m.orientation, m.width as int, m.height as int),
        0 <= y < output_height(m.orientation, m.width as int, m.height as int),
    ensures
        ({
            let o = m.orientation;
            let (w, h) = (m.width as int, m.height as int);
            let (sx, sy) = source_pixel(o, w, h, x, y);
            let i = y * output_width(o, w, h) + x;
            &&& g.width == output_width(o, w, h)
            &&& g.height == output_height(o, w, h)
            &&& match (m.y@, g.y@) {
                (Samples::U8(s), Samples::U8(t)) => t[i] == s[sy * w + sx],
                (Samples::U16(s), Samples::U16(t)) => t[i] == s[sy * w + sx],
                _ => false,
            }
            &&& m.cb matches Some(c) ==> g.cb is Some && g.cb->0@ == c@.oriented(
                m.chroma_width as int,
                m.chroma_height as int,
                o,
            )
            &&& m.cr matches Some(c) ==> g.cr is Some && g.cr->0@ == c@.oriented(
                m.chroma_width as int,
                m.chroma_height as int,
                o,
            )
            &&& m.cb is None ==> g.cb is None
            &&& m.cr is None ==> g.cr is None
            &&& !(m.chroma is Monochrome) ==> g.chroma_width == output_width(
                o,
                m.chroma_width as int,
                m.chroma_height as int,
            ) && g.chroma_height == output_height(
                o,
                m.chroma_width as int,
                m.chroma_height as int,
            )
            &&& g.orientation == o
            &&& g.metadata == m.metadata
        }),
{
    turning_moves_plane_samples(
        m.y@,
        m.width as int,
        m.height as int,
        m.orientation,
        x,
        y,
    );
}

/// A gain-map item is shown in the size that it announces, from the visible corner of its picture,
/// in its depth and sampling.
pub proof fn gain_map_items_are_shown_from_their_corner(
    limits: ParseLimits,
    item: HeifItem,
    planes: NativeYuvPlanes,
    vui: Cicp,
    crop: HevcVisibleCrop,
    w: u32,
    h: u32,
    f: GainMapFrame,
)
    requires
        frames(limits, item, planes, vui, crop, w, h, Ok(f)),
    ensures
        limits.complaint(w, h) is None,
        f.planes.luma_layout().width == w,
        f.planes.luma_layout().height == h,
        buffer_shows(f.planes, planes, w as int, h as int, crop),
        f.bit_depth == planes.depth(),
        f.chroma == planes.sampling(),
        f.color@ == gain_map_color(item.color@, vui),
        f.orientation == item.orientation,
{
}

/// The visible corner is that of the parameter set, or that of the picture where there is none.
pub proof fn corners_come_from_the_parameter_set<C: Codec>(
    codec: &C,
    hvcc: Seq<u8>,
    crop: HevcVisibleCrop,
)
    requires
        crops(codec, hvcc, crop),
    ensures
        exists|ps: Result<(Sps, Pps), DecodeError>|
            {
                &&& #[trigger] configures(codec, hvcc, ps)
                &&& ps matches Ok((sps, _)) ==> crop.left == sps.crop_left && crop.top
                    == sps.crop_top
                &&& ps is Err ==> crop.left == 0 && crop.top == 0
            },
{
}

} // verus!
