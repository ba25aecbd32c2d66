//! Planes are decoded as they are coded: files that differ in what they say of orientation only
//! decode to the same planes.
use vstd::prelude::*;
use crate::agreement::{
    lemma_steady_parts, native_items_decode_alike, out_of_memory, steady,
};
use crate::arith::lemma_row_major_split;
use crate::auxiliary::{
    decodes_alpha, decodes_gain_frame, decodes_gain_grid, decodes_gain_item,
    decodes_gain_source, frames, grid_color, luma_window, plane_of,
};
use crate::codec::{decodes_native, Codec};
use crate::color::{bytes_view, Cicp};
use crate::config::Sps;
use crate::decode::{
    completes_yuv, decodes_yuv, decodes_yuv_grid, decodes_yuv_item, parse_options, parses, shows_yuv,
    visible_buffer, wanted_alpha, wanted_gain_frame,
};
use crate::error::DecodeError;
use crate::formats::{
    ceil_div, BitDepth, ChromaFormat, PlanarImage, PlaneBuffer, SamplePlane, YuvBuffer,
};
use crate::grid::{
    composes_native, decodes_native_grid, first_hvcc, native_geometry, tile_picture, undivided,
    Bands, Grid, GridGeometry, GridSample, NativeGridImage,
};
use crate::heif::{GridInfo, HeifFile, HeifGainMap, HeifImageSource, HeifItem};
use crate::image::{DecodedYuv, GainMapFrame};
use crate::limits::ParseLimits;
use crate::metadata::Orientation;
use crate::sample::Sample;
use crate::settings::HeicSettings;
use crate::window::{
    buffer_shows, lemma_chroma_fits, picture_too_large, planes_fail, shows,
    too_large, HevcVisibleCrop,
};
use crate::yuv::{NativePlanes, NativeYuvPlanes};

verus! {

/// Two planes have the same samples in the same places of their buffers.
pub open spec fn same_plane<T: Sample>(p: PlaneBuffer<T>, q: PlaneBuffer<T>) -> bool {
    p.layout == q.layout && p.data@ == q.data@
}

/// Two planes are the same, or both absent.
pub open spec fn same_option<T: Sample>(
    p: Option<PlaneBuffer<T>>,
    q: Option<PlaneBuffer<T>>,
) -> bool {
    match (p, q) {
        (Some(a), Some(b)) => same_plane(a, b),
        (None, None) => true,
        _ => false,
    }
}

/// Two images have the same planes.
pub open spec fn same_planar<T: Sample>(p: PlanarImage<T>, q: PlanarImage<T>) -> bool {
    same_plane(p.y, q.y) && same_option(p.cb, q.cb) && same_option(p.cr, q.cr)
}

/// Two images have the same planes of the same sample type.
pub open spec fn same_buffer(p: YuvBuffer, q: YuvBuffer) -> bool {
    match (p, q) {
        (YuvBuffer::U8(a), YuvBuffer::U8(b)) => same_planar(a, b),
        (YuvBuffer::U16(a), YuvBuffer::U16(b)) => same_planar(a, b),
        _ => false,
    }
}

/// Two alpha planes are the same, or both absent.
pub open spec fn same_alpha(p: Option<SamplePlane>, q: Option<SamplePlane>) -> bool {
    match (p, q) {
        (Some(SamplePlane::U8(a)), Some(SamplePlane::U8(b))) => same_plane(a, b),
        (Some(SamplePlane::U16(a)), Some(SamplePlane::U16(b))) => same_plane(a, b),
        (None, None) => true,
        _ => false,
    }
}

/// Two frames are the same but for their orientation.
pub open spec fn same_frame(f: GainMapFrame, g: GainMapFrame) -> bool {
    &&& same_buffer(f.planes, g.planes)
    &&& f.bit_depth == g.bit_depth
    &&& f.chroma == g.chroma
    &&& f.color@ == g.color@
    &&& bytes_view(f.metadata) == bytes_view(g.metadata)
}

/// Two gain maps are the same but for their orientation, or both absent.
pub open spec fn same_gain(f: Option<GainMapFrame>, g: Option<GainMapFrame>) -> bool {
    match (f, g) {
        (Some(a), Some(b)) => same_frame(a, b),
        (None, None) => true,
        _ => false,
    }
}

/// Two decodes have the same planes, and differ in orientation at most.
pub open spec fn same_but_orientation(a: DecodedYuv, b: DecodedYuv) -> bool {
    &&& same_buffer(a.planes, b.planes)
    &&& same_alpha(a.alpha, b.alpha)
    &&& same_gain(a.gain_map, b.gain_map)
    &&& a.bit_depth == b.bit_depth
    &&& a.chroma == b.chroma
    &&& a.color@ == b.color@
    &&& a.clean_aperture == b.clean_aperture
    &&& a.pixel_aspect_ratio == b.pixel_aspect_ratio
    &&& bytes_view(a.exif) == bytes_view(b.exif)
}

/// Two items are the same but for their orientation.
pub open spec fn turned_item(a: HeifItem, b: HeifItem) -> bool {
    b == HeifItem { orientation: b.orientation, ..a }
}

/// Two grids are the same but for their orientation.
pub open spec fn turned_grid(a: GridInfo, b: GridInfo) -> bool {
    b == GridInfo { orientation: b.orientation, ..a }
}

/// Two gain maps of containers are the same but for their orientation, or both absent.
pub open spec fn turned_gain(a: Option<HeifGainMap>, b: Option<HeifGainMap>) -> bool {
    match (a, b) {
        (Some(g), Some(h)) => g.metadata == h.metadata && match (g.image, h.image) {
            (HeifImageSource::Item(i), HeifImageSource::Item(j)) => turned_item(i, j),
            (HeifImageSource::Grid(i), HeifImageSource::Grid(j)) => turned_grid(i, j),
            _ => false,
        },
        (None, None) => true,
        _ => false,
    }
}

/// Two containers say the same of everything but orientation.
pub open spec fn turned_container(a: HeifFile, b: HeifFile) -> bool {
    &&& turned_item(a.primary, b.primary)
    &&& match (a.grid, b.grid) {
        (Some(g), Some(h)) => turned_grid(g, h),
        (None, None) => true,
        _ => false,
    }
    &&& match (a.alpha, b.alpha) {
        (Some(i), Some(j)) => turned_item(i, j),
        (None, None) => true,
        _ => false,
    }
    &&& turned_gain(a.gain_map, b.gain_map)
    &&& a.exif == b.exif
}

/// Two files hold the same data for the tiles of a grid.
pub open spec fn same_tile_data(grid: GridInfo, f1: Seq<u8>, f2: Seq<u8>) -> bool {
    forall|i: int|
        0 <= i < grid.tiles@.len() ==> (#[trigger] grid.tiles@[i]).data(f1) == grid.tiles@[i].data(
            f2,
        )
}

/// Two files of one length hold the same data for every image of a container.
pub open spec fn same_data(heif: HeifFile, f1: Seq<u8>, f2: Seq<u8>) -> bool {
    &&& f1.len() == f2.len()
    &&& heif.primary.data(f1) == heif.primary.data(f2)
    &&& heif.grid matches Some(g) ==> same_tile_data(g, f1, f2)
    &&& heif.alpha matches Some(i) ==> i.data(f1) == i.data(f2)
    &&& heif.gain_map matches Some(g) ==> match g.image {
        HeifImageSource::Item(i) => i.data(f1) == i.data(f2),
        HeifImageSource::Grid(i) => same_tile_data(i, f1, f2),
    }
}

proof fn lemma_shown_alike<T: Sample>(
    planes: NativePlanes<T>,
    dw: int,
    dh: int,
    crop: HevcVisibleCrop,
    p: PlanarImage<T>,
    q: PlanarImage<T>,
)
    requires
        shows(p, planes, dw, dh, crop),
        shows(q, planes, dw, dh, crop),
    ensures
        same_planar(p, q),
{
    assert(p.y@ == q.y@);
    assert(p.y.layout == q.y.layout);
    if let (Some(a), Some(b)) = (p.cb, q.cb) {
        assert(a@ == b@);
        assert(a.layout == b.layout);
    }
    if let (Some(a), Some(b)) = (p.cr, q.cr) {
        assert(a@ == b@);
        assert(a.layout == b.layout);
    }
}

proof fn lemma_buffers_alike(
    planes: NativeYuvPlanes,
    dw: int,
    dh: int,
    crop: HevcVisibleCrop,
    p: YuvBuffer,
    q: YuvBuffer,
)
    requires
        buffer_shows(p, planes, dw, dh, crop),
        buffer_shows(q, planes, dw, dh, crop),
    ensures
        same_buffer(p, q),
{
    match planes {
        NativeYuvPlanes::U8(n) => {
            lemma_shown_alike(n, dw, dh, crop, p->U8_0, q->U8_0);
        },
        NativeYuvPlanes::U16(n) => {
            lemma_shown_alike(n, dw, dh, crop, p->U16_0, q->U16_0);
        },
    }
}

proof fn lemma_luma_alike<T: Sample>(
    planes: NativePlanes<T>,
    dw: int,
    dh: int,
    crop: HevcVisibleCrop,
    p: PlaneBuffer<T>,
    q: PlaneBuffer<T>,
)
    requires
        luma_window(planes, dw, dh, crop, Ok(p)),
        luma_window(planes, dw, dh, crop, Ok(q)),
    ensures
        same_plane(p, q),
{
    assert(p@ == q@);
    assert(p.layout == q.layout);
}

/// A picture that can be numbered has a window unless memory runs out.
proof fn lemma_windows_fail_for_memory<T: Sample>(
    planes: NativePlanes<T>,
    dw: int,
    dh: int,
    crop: HevcVisibleCrop,
    e: DecodeError,
)
    requires
        0 <= dw,
        0 <= dh,
        planes_fail(planes, dw, dh, crop, e),
        !too_large(planes, dw, dh, crop),
    ensures
        e is AllocationFailed,
{
    let sx = planes.chroma.step_x();
    let sy = planes.chroma.step_y();
    assert(planes.y.len() == planes.y@.len());
    assert(0 <= ceil_div(dw, sx) <= dw && 0 <= ceil_div(dh, sy) <= dh);
    lemma_chroma_fits(
        planes,
        dw,
        dh,
        crop,
        planes.y@.len() as int,
        ceil_div(dw, sx),
        ceil_div(dh, sy),
    );
}

/// Two grids are made of the same tiles.
spec fn same_tiles(g: Grid, h: Grid) -> bool {
    &&& g.file.len() == h.file.len()
    &&& g.tiles == h.tiles
    &&& g.fallback == h.fallback
    &&& g.geo == h.geo
    &&& forall|i: int|
        0 <= i < g.tiles.len() ==> (#[trigger] g.tiles[i]).data(g.file) == g.tiles[i].data(h.file)
}

proof fn lemma_tiles_alike<C: Codec>(
    codec: &C,
    f1: Seq<u8>,
    f2: Seq<u8>,
    tile: HeifItem,
    fallback: Seq<u8>,
    r1: Result<Option<(NativeYuvPlanes, Cicp)>, DecodeError>,
    r2: Result<Option<(NativeYuvPlanes, Cicp)>, DecodeError>,
)
    requires
        steady(codec),
        f1.len() == f2.len(),
        tile.data(f1) == tile.data(f2),
        tile_picture(codec, f1, tile, fallback, r1),
        tile_picture(codec, f2, tile, fallback, r2),
    ensures
        r1 == r2,
{
    lemma_native_items(codec);
}

proof fn lemma_native_items<C: Codec>(codec: &C)
    requires
        steady(codec),
    ensures
        forall|
            sample: Seq<u8>,
            hvcc: Seq<u8>,
            parallel: bool,
            d1: Result<(NativeYuvPlanes, Cicp), DecodeError>,
            d2: Result<(NativeYuvPlanes, Cicp), DecodeError>,
        |
            #[trigger] decodes_native(codec, sample, hvcc, parallel, d1)
                && #[trigger] decodes_native(codec, sample, hvcc, parallel, d2) ==> d1 == d2,
{
    assert forall|
        sample: Seq<u8>,
        hvcc: Seq<u8>,
        parallel: bool,
        d1: Result<(NativeYuvPlanes, Cicp), DecodeError>,
        d2: Result<(NativeYuvPlanes, Cicp), DecodeError>,
    |
        #[trigger] decodes_native(codec, sample, hvcc, parallel, d1) && #[trigger] decodes_native(
            codec,
            sample,
            hvcc,
            parallel,
            d2,
        ) implies d1 == d2 by {
        native_items_decode_alike(codec, sample, hvcc, parallel, d1, d2);
    }
}

proof fn lemma_stitched_alike<C: Codec, T: GridSample>(
    g: Grid,
    h: Grid,
    codec: &C,
    k: int,
    col: int,
    bands: Bands<T>,
    r1: Result<Bands<T>, DecodeError>,
    r2: Result<Bands<T>, DecodeError>,
)
    requires
        steady(codec),
        same_tiles(g, h),
        0 <= k,
        0 <= col,
        g.stitches(codec, k, col, bands, r1),
        h.stitches(codec, k, col, bands, r2),
    ensures
        r1 == r2,
    decreases g.geo.cols - col,
{
    let idx = k * g.geo.cols + col;
    if col < g.geo.cols && idx < g.tiles.len() {
        assert(0 <= idx) by (nonlinear_arith)
            requires
                idx == k * g.geo.cols + col,
                0 <= k,
                0 <= col,
                0 <= g.geo.cols,
        ;
        let tile = g.tiles[idx];
        let d1 = choose|d: Result<Option<(NativeYuvPlanes, Cicp)>, DecodeError>|
            {
                &&& #[trigger] tile_picture(codec, g.file, tile, g.fallback, d)
                &&& match d {
                    Err(e) => r1 == Err::<Bands<T>, DecodeError>(e),
                    Ok(p) => g.stitches(codec, k, col + 1, g.with_tile(k, col, p, bands), r1),
                }
            };
        let d2 = choose|d: Result<Option<(NativeYuvPlanes, Cicp)>, DecodeError>|
            {
                &&& #[trigger] tile_picture(codec, h.file, tile, h.fallback, d)
                &&& match d {
                    Err(e) => r2 == Err::<Bands<T>, DecodeError>(e),
                    Ok(p) => h.stitches(codec, k, col + 1, h.with_tile(k, col, p, bands), r2),
                }
            };
        assert(tile.data(g.file) == tile.data(h.file));
        lemma_tiles_alike(codec, g.file, h.file, tile, g.fallback, d1, d2);
        if let Ok(p) = d1 {
            let next = g.with_tile(k, col, p, bands);
            assert(next == h.with_tile(k, col, p, bands));
            lemma_stitched_alike(g, h, codec, k, col + 1, next, r1, r2);
        }
    }
}

proof fn lemma_filled_alike<C: Codec, T: GridSample>(
    g: Grid,
    h: Grid,
    codec: &C,
    rows: int,
    k: int,
    planes: Bands<T>,
    r1: Result<Bands<T>, DecodeError>,
    r2: Result<Bands<T>, DecodeError>,
)
    requires
        steady(codec),
        same_tiles(g, h),
        0 <= k,
        g.fills(codec, rows, k, planes, r1),
        h.fills(codec, rows, k, planes, r2),
    ensures
        r1 == r2,
    decreases rows - k,
{
    if k < rows {
        if g.geo.luma_band(k).1 <= 0 {
            lemma_filled_alike(g, h, codec, rows, k + 1, planes, r1, r2);
        } else {
            let cut = g.geo.cut(k, planes);
            let b1 = choose|b: Result<Bands<T>, DecodeError>|
                {
                    &&& #[trigger] g.stitches(codec, k, 0, cut, b)
                    &&& match b {
                        Err(e) => r1 == Err::<Bands<T>, DecodeError>(e),
                        Ok(part) => g.fills(
                            codec,
                            rows,
                            k + 1,
                            g.geo.merge(k, planes, part),
                            r1,
                        ),
                    }
                };
            let b2 = choose|b: Result<Bands<T>, DecodeError>|
                {
                    &&& #[trigger] h.stitches(codec, k, 0, cut, b)
                    &&& match b {
                        Err(e) => r2 == Err::<Bands<T>, DecodeError>(e),
                        Ok(part) => h.fills(
                            codec,
                            rows,
                            k + 1,
                            h.geo.merge(k, planes, part),
                            r2,
                        ),
                    }
                };
            lemma_stitched_alike(g, h, codec, k, 0, cut, b1, b2);
            if let Ok(part) = b1 {
                let next = g.geo.merge(k, planes, part);
                lemma_filled_alike(g, h, codec, rows, k + 1, next, r1, r2);
            }
        }
    }
}

proof fn lemma_tight_plane<T: Sample>(p: PlaneBuffer<T>)
    requires
        p.is_tight(),
    ensures
        p.data@ == p.raster(),
{
    let (w, h) = (p.layout.width as int, p.layout.height as int);
    assert forall|i: int| 0 <= i < p.data@.len() implies p.raster()[i] == p.data@[i] by {
        assert(w > 0) by (nonlinear_arith)
            requires
                0 <= i < w * h,
                w >= 0,
        ;
        assert(w * h == h * w) by (nonlinear_arith);
        lemma_row_major_split(i, w, h);
    }
    assert(p.data@ =~= p.raster());
}

proof fn lemma_held_alike<T: Sample>(
    geo: GridGeometry,
    planes: Bands<T>,
    p: PlanarImage<T>,
    q: PlanarImage<T>,
)
    requires
        geo.holds(p, planes),
        geo.holds(q, planes),
    ensures
        same_planar(p, q),
{
    lemma_tight_plane(p.y);
    lemma_tight_plane(q.y);
    assert(p.y@ == q.y@);
    assert(p.y.layout == q.y.layout);
    if let (Some(a), Some(b)) = (p.cb, q.cb) {
        lemma_tight_plane(a);
        lemma_tight_plane(b);
        assert(a@ == b@);
        assert(a.layout == b.layout);
    }
    if let (Some(a), Some(b)) = (p.cr, q.cr) {
        lemma_tight_plane(a);
        lemma_tight_plane(b);
        assert(a@ == b@);
        assert(a.layout == b.layout);
    }
}

/// Filled grids are the same, unless there was no memory for one of them.
spec fn planars_agree<T: Sample>(
    a: Result<PlanarImage<T>, DecodeError>,
    b: Result<PlanarImage<T>, DecodeError>,
) -> bool {
    out_of_memory(a) || out_of_memory(b) || match (a, b) {
        (Ok(p), Ok(q)) => same_planar(p, q),
        (Err(e), Err(f)) => e == f,
        _ => false,
    }
}

proof fn lemma_composed_alike<C: Codec, T: GridSample>(
    g: Grid,
    h: Grid,
    codec: &C,
    rows: int,
    a: Result<PlanarImage<T>, DecodeError>,
    b: Result<PlanarImage<T>, DecodeError>,
)
    requires
        steady(codec),
        same_tiles(g, h),
        g.composes(codec, rows, a),
        h.composes(codec, rows, b),
    ensures
        planars_agree(a, b),
{
    let blank = g.geo.blank::<T>();
    let numbered = g.geo.out_w * g.geo.out_h <= usize::MAX && g.geo.cw * g.geo.ch <= usize::MAX;
    if numbered && !out_of_memory(a) && !out_of_memory(b) {
        let f1 = choose|f: Result<Bands<T>, DecodeError>|
            {
                &&& #[trigger] g.fills(codec, rows, 0, blank, f)
                &&& match f {
                    Err(e) => a == Err::<PlanarImage<T>, DecodeError>(e),
                    Ok(planes) => a matches Ok(image) && g.geo.holds(image, planes),
                }
            };
        let f2 = choose|f: Result<Bands<T>, DecodeError>|
            {
                &&& #[trigger] h.fills(codec, rows, 0, blank, f)
                &&& match f {
                    Err(e) => b == Err::<PlanarImage<T>, DecodeError>(e),
                    Ok(planes) => b matches Ok(image) && h.geo.holds(image, planes),
                }
            };
        lemma_filled_alike(g, h, codec, rows, 0, blank, f1, f2);
        if let Ok(planes) = f1 {
            lemma_held_alike(g.geo, planes, a->Ok_0, b->Ok_0);
        }
    }
}

/// Decoded grids are the same, unless there was no memory for one of them.
spec fn natives_agree(
    a: Result<NativeGridImage, DecodeError>,
    b: Result<NativeGridImage, DecodeError>,
) -> bool {
    out_of_memory(a) || out_of_memory(b) || match (a, b) {
        (Ok(p), Ok(q)) => {
            &&& same_buffer(p.planes, q.planes)
            &&& p.bit_depth == q.bit_depth
            &&& p.chroma == q.chroma
            &&& p.vui_color == q.vui_color
        },
        (Err(e), Err(f)) => e == f,
        _ => false,
    }
}

spec fn grid_model(file: Seq<u8>, grid: GridInfo, sps: Sps) -> Grid {
    Grid {
        file,
        tiles: grid.tiles@,
        fallback: first_hvcc(grid.tiles@, 0),
        geo: native_geometry(grid, sps),
    }
}

proof fn lemma_native_grids_alike<C: Codec>(
    codec: &C,
    limits: ParseLimits,
    f1: Seq<u8>,
    f2: Seq<u8>,
    grid: GridInfo,
    other: GridInfo,
    a: Result<NativeGridImage, DecodeError>,
    b: Result<NativeGridImage, DecodeError>,
)
    requires
        steady(codec),
        f1.len() == f2.len(),
        same_tile_data(grid, f1, f2),
        turned_grid(grid, other),
        decodes_native_grid(codec, limits, f1, grid, a),
        decodes_native_grid(codec, limits, f2, other, b),
    ensures
        natives_agree(a, b),
{
    lemma_steady_parts(codec);
    let rows = grid.rows as int;
    assert(other.tiles@ == grid.tiles@ && other.rows == grid.rows);
    assert forall|sps: Sps| #[trigger] composes_native(codec, f1, grid, sps, a) && composes_native(
        codec,
        f2,
        other,
        sps,
        b,
    ) implies natives_agree(a, b) by {
        let g = grid_model(f1, grid, sps);
        let h = grid_model(f2, other, sps);
        assert(native_geometry(other, sps) == native_geometry(grid, sps));
        assert(same_tiles(g, h));
        if !undivided(grid, sps) {
            if BitDepth::signalled(sps.bit_depth_luma as int) is Eight {
                assert forall|
                    p: Result<PlanarImage<u8>, DecodeError>,
                    q: Result<PlanarImage<u8>, DecodeError>,
                |
                    #[trigger] g.composes(codec, rows, p) && #[trigger] h.composes(codec, rows, q)
                    implies planars_agree(p, q) by {
                    lemma_composed_alike(g, h, codec, rows, p, q);
                }
            } else {
                assert forall|
                    p: Result<PlanarImage<u16>, DecodeError>,
                    q: Result<PlanarImage<u16>, DecodeError>,
                |
                    #[trigger] g.composes(codec, rows, p) && #[trigger] h.composes(codec, rows, q)
                    implies planars_agree(p, q) by {
                    lemma_composed_alike(g, h, codec, rows, p, q);
                }
            }
        }
    }
}

proof fn lemma_alpha_alike<C: Codec>(
    codec: &C,
    f1: Seq<u8>,
    f2: Seq<u8>,
    alpha: Option<HeifItem>,
    other: Option<HeifItem>,
    dw: int,
    dh: int,
    a: Option<SamplePlane>,
    b: Option<SamplePlane>,
)
    requires
        steady(codec),
        f1.len() == f2.len(),
        alpha matches Some(i) ==> i.data(f1) == i.data(f2),
        match (alpha, other) {
            (Some(i), Some(j)) => turned_item(i, j),
            (None, None) => true,
            _ => false,
        },
        decodes_alpha(codec, f1, alpha, dw, dh, Ok(a)),
        decodes_alpha(codec, f2, other, dw, dh, Ok(b)),
    ensures
        same_alpha(a, b),
{
    lemma_steady_parts(codec);
    lemma_native_items(codec);
    if let (Some(i), Some(j)) = (alpha, other) {
        assert(j.data(f2) == i.data(f2));
        assert(j.hvcc@ == i.hvcc@);
    }
    assert forall|planes: NativeYuvPlanes, crop: HevcVisibleCrop, p: SamplePlane, q: SamplePlane|
        #[trigger] plane_of(planes, dw, dh, crop, Ok(p)) && #[trigger] plane_of(
            planes,
            dw,
            dh,
            crop,
            Ok(q),
        ) implies same_alpha(Some(p), Some(q)) by {
        match planes {
            NativeYuvPlanes::U8(n) => {
                lemma_luma_alike(n, dw, dh, crop, p->U8_0, q->U8_0);
            },
            NativeYuvPlanes::U16(n) => {
                lemma_luma_alike(n, dw, dh, crop, p->U16_0, q->U16_0);
            },
        }
    }
}

/// Frames of gain maps are the same but for their orientation, unless there was no memory for one
/// of them.
spec fn frames_agree(a: Result<GainMapFrame, DecodeError>, b: Result<GainMapFrame, DecodeError>) -> bool {
    out_of_memory(a) || out_of_memory(b) || match (a, b) {
        (Ok(f), Ok(g)) => same_frame(f, g),
        (Err(e), Err(f)) => e == f,
        _ => false,
    }
}

proof fn lemma_frames_alike(
    limits: ParseLimits,
    item: HeifItem,
    other: HeifItem,
    planes: NativeYuvPlanes,
    vui: Cicp,
    crop: HevcVisibleCrop,
    w: u32,
    h: u32,
    a: Result<GainMapFrame, DecodeError>,
    b: Result<GainMapFrame, DecodeError>,
)
    requires
        turned_item(item, other),
        frames(limits, item, planes, vui, crop, w, h, a),
        frames(limits, other, planes, vui, crop, w, h, b),
    ensures
        frames_agree(a, b),
{
    let (dw, dh) = (w as int, h as int);
    if limits.complaint(w, h) is None {
        if a is Ok && b is Ok {
            lemma_buffers_alike(planes, dw, dh, crop, a->Ok_0.planes, b->Ok_0.planes);
        }
        if !picture_too_large(planes, dw, dh, crop) {
            if let Err(e) = a {
                match planes {
                    NativeYuvPlanes::U8(n) => {
                        lemma_windows_fail_for_memory(n, dw, dh, crop, e);
                    },
                    NativeYuvPlanes::U16(n) => {
                        lemma_windows_fail_for_memory(n, dw, dh, crop, e);
                    },
                }
            }
            if let Err(e) = b {
                match planes {
                    NativeYuvPlanes::U8(n) => {
                        lemma_windows_fail_for_memory(n, dw, dh, crop, e);
                    },
                    NativeYuvPlanes::U16(n) => {
                        lemma_windows_fail_for_memory(n, dw, dh, crop, e);
                    },
                }
            }
        }
    }
}

proof fn lemma_gain_items_alike<C: Codec>(
    codec: &C,
    limits: ParseLimits,
    f1: Seq<u8>,
    f2: Seq<u8>,
    item: HeifItem,
    other: HeifItem,
    a: Result<GainMapFrame, DecodeError>,
    b: Result<GainMapFrame, DecodeError>,
)
    requires
        steady(codec),
        f1.len() == f2.len(),
        item.data(f1) == item.data(f2),
        turned_item(item, other),
        decodes_gain_item(codec, limits, f1, item, a),
        decodes_gain_item(codec, limits, f2, other, b),
    ensures
        frames_agree(a, b),
{
    lemma_steady_parts(codec);
    lemma_native_items(codec);
    assert(other.data(f2) == item.data(f2));
    assert(other.hvcc@ == item.hvcc@);
    assert forall|planes: NativeYuvPlanes, vui: Cicp, crop: HevcVisibleCrop, w: u32, h: u32|
        #[trigger] frames(limits, item, planes, vui, crop, w, h, a) && frames(
            limits,
            other,
            planes,
            vui,
            crop,
            w,
            h,
            b,
        ) implies frames_agree(a, b) by {
        lemma_frames_alike(limits, item, other, planes, vui, crop, w, h, a, b);
    }
}

proof fn lemma_gain_alike<C: Codec>(
    codec: &C,
    limits: ParseLimits,
    f1: Seq<u8>,
    f2: Seq<u8>,
    gain: Option<HeifGainMap>,
    other: Option<HeifGainMap>,
    a: Option<GainMapFrame>,
    b: Option<GainMapFrame>,
)
    requires
        steady(codec),
        f1.len() == f2.len(),
        gain matches Some(g) ==> match g.image {
            HeifImageSource::Item(i) => i.data(f1) == i.data(f2),
            HeifImageSource::Grid(i) => same_tile_data(i, f1, f2),
        },
        turned_gain(gain, other),
        decodes_gain_frame(codec, limits, f1, gain, Ok(a)),
        decodes_gain_frame(codec, limits, f2, other, Ok(b)),
    ensures
        same_gain(a, b),
{
    if let (Some(g), Some(h)) = (gain, other) {
        assert forall|p: Result<GainMapFrame, DecodeError>, q: Result<GainMapFrame, DecodeError>|
            #[trigger] decodes_gain_source(codec, limits, f1, g.image, p)
                && #[trigger] decodes_gain_source(codec, limits, f2, h.image, q)
            implies frames_agree(p, q) by {
            match (g.image, h.image) {
                (HeifImageSource::Item(i), HeifImageSource::Item(j)) => {
                    lemma_gain_items_alike(codec, limits, f1, f2, i, j, p, q);
                },
                (HeifImageSource::Grid(i), HeifImageSource::Grid(j)) => {
                    assert forall|
                        m: Result<NativeGridImage, DecodeError>,
                        n: Result<NativeGridImage, DecodeError>,
                    |
                        #[trigger] decodes_native_grid(codec, limits, f1, i, m)
                            && #[trigger] decodes_native_grid(codec, limits, f2, j, n)
                        implies natives_agree(m, n) by {
                        lemma_native_grids_alike(codec, limits, f1, f2, i, j, m, n);
                    }
                    assert(grid_color(i) == grid_color(j));
                    assert(decodes_gain_grid(codec, limits, f1, i, p));
                    assert(decodes_gain_grid(codec, limits, f2, j, q));
                },
                _ => {},
            }
        }
    }
}

proof fn lemma_completed_yuv_alike<C: Codec>(
    codec: &C,
    settings: HeicSettings,
    f1: Seq<u8>,
    f2: Seq<u8>,
    heif: HeifFile,
    other: HeifFile,
    a: DecodedYuv,
    b: DecodedYuv,
)
    requires
        steady(codec),
        same_data(heif, f1, f2),
        turned_container(heif, other),
    ensures
        forall|
            p: YuvBuffer,
            q: YuvBuffer,
            dw: int,
            dh: int,
            depth: BitDepth,
            chroma: ChromaFormat,
            o1: Orientation,
            o2: Orientation,
        |
            #[trigger] completes_yuv(
                codec,
                settings,
                f1,
                heif,
                p,
                dw,
                dh,
                depth,
                chroma,
                o1,
                Ok(a),
            ) && #[trigger] completes_yuv(
                codec,
                settings,
                f2,
                other,
                q,
                dw,
                dh,
                depth,
                chroma,
                o2,
                Ok(b),
            ) && same_buffer(p, q) ==> same_but_orientation(a, b),
{
    let limits = settings.limits;
    assert forall|dw: int, dh: int, x: Option<SamplePlane>, y: Option<SamplePlane>|
        #[trigger] wanted_alpha(codec, settings.decode_alpha, f1, heif, dw, dh, Ok(x))
            && #[trigger] wanted_alpha(codec, settings.decode_alpha, f2, other, dw, dh, Ok(y))
        implies same_alpha(x, y) by {
        if settings.decode_alpha {
            lemma_alpha_alike(codec, f1, f2, heif.alpha, other.alpha, dw, dh, x, y);
        }
    }
    assert forall|x: Option<GainMapFrame>, y: Option<GainMapFrame>|
        #[trigger] wanted_gain_frame(codec, settings.decode_gain_map, limits, f1, heif, Ok(x))
            && #[trigger] wanted_gain_frame(
            codec,
            settings.decode_gain_map,
            limits,
            f2,
            other,
            Ok(y),
        ) implies same_gain(x, y) by {
        if settings.decode_gain_map {
            lemma_gain_alike(codec, limits, f1, f2, heif.gain_map, other.gain_map, x, y);
        }
    }
    assert forall|
        p: YuvBuffer,
        q: YuvBuffer,
        dw: int,
        dh: int,
        depth: BitDepth,
        chroma: ChromaFormat,
        o1: Orientation,
        o2: Orientation,
    |
        #[trigger] completes_yuv(codec, settings, f1, heif, p, dw, dh, depth, chroma, o1, Ok(a))
            && #[trigger] completes_yuv(
            codec,
            settings,
            f2,
            other,
            q,
            dw,
            dh,
            depth,
            chroma,
            o2,
            Ok(b),
        ) && same_buffer(p, q) implies same_but_orientation(a, b) by {
        assert(wanted_alpha(codec, settings.decode_alpha, f1, heif, dw, dh, Ok(a.alpha)));
        assert(wanted_alpha(codec, settings.decode_alpha, f2, other, dw, dh, Ok(b.alpha)));
        assert(wanted_gain_frame(
            codec,
            settings.decode_gain_map,
            limits,
            f1,
            heif,
            Ok(a.gain_map),
        ));
        assert(wanted_gain_frame(
            codec,
            settings.decode_gain_map,
            limits,
            f2,
            other,
            Ok(b.gain_map),
        ));
    }
}

proof fn lemma_yuv_items_alike<C: Codec>(
    codec: &C,
    settings: HeicSettings,
    f1: Seq<u8>,
    f2: Seq<u8>,
    heif: HeifFile,
    other: HeifFile,
    a: DecodedYuv,
    b: DecodedYuv,
)
    requires
        steady(codec),
        same_data(heif, f1, f2),
        turned_container(heif, other),
        decodes_yuv_item(codec, settings, f1, heif, Ok(a)),
        decodes_yuv_item(codec, settings, f2, other, Ok(b)),
    ensures
        same_but_orientation(a, b),
{
    let item = heif.primary;
    let (dw, dh) = (item.display_w as int, item.display_h as int);
    lemma_steady_parts(codec);
    lemma_native_items(codec);
    lemma_completed_yuv_alike(codec, settings, f1, f2, heif, other, a, b);
    assert(other.primary.data(f2) == item.data(f2));
    assert(other.primary.hvcc@ == item.hvcc@);
    assert forall|planes: NativeYuvPlanes|
        #[trigger] shows_yuv(codec, settings, f1, heif, planes, Ok(a)) && shows_yuv(
            codec,
            settings,
            f2,
            other,
            planes,
            Ok(b),
        ) implies same_but_orientation(a, b) by {
        assert forall|
            crop: HevcVisibleCrop,
            v1: Result<YuvBuffer, DecodeError>,
            v2: Result<YuvBuffer, DecodeError>,
        |
            #[trigger] visible_buffer(planes, dw, dh, crop, v1) && #[trigger] visible_buffer(
                planes,
                dw,
                dh,
                crop,
                v2,
            ) && v1 is Ok && v2 is Ok implies same_buffer(v1->Ok_0, v2->Ok_0) by {
            lemma_buffers_alike(planes, dw, dh, crop, v1->Ok_0, v2->Ok_0);
        }
    }
}

proof fn lemma_yuv_grids_alike<C: Codec>(
    codec: &C,
    settings: HeicSettings,
    f1: Seq<u8>,
    f2: Seq<u8>,
    heif: HeifFile,
    other: HeifFile,
    a: DecodedYuv,
    b: DecodedYuv,
)
    requires
        steady(codec),
        same_data(heif, f1, f2),
        turned_container(heif, other),
        heif.grid is Some,
        decodes_yuv_grid(codec, settings, f1, heif, heif.grid->0, Ok(a)),
        decodes_yuv_grid(codec, settings, f2, other, other.grid->0, Ok(b)),
    ensures
        same_but_orientation(a, b),
{
    let (g, h) = (heif.grid->0, other.grid->0);
    lemma_completed_yuv_alike(codec, settings, f1, f2, heif, other, a, b);
    assert forall|m: Result<NativeGridImage, DecodeError>, n: Result<NativeGridImage, DecodeError>|
        #[trigger] decodes_native_grid(codec, settings.limits, f1, g, m)
            && #[trigger] decodes_native_grid(codec, settings.limits, f2, h, n)
        implies natives_agree(m, n) by {
        lemma_native_grids_alike(codec, settings.limits, f1, f2, g, h, m, n);
    }
}

/// With a steady decoder, two files that say the same of everything but orientation, and hold the
/// same image data, decode to the same planes, of the gain map too. The decodes differ in the
/// orientation that they note, and in nothing else.
pub proof fn orientation_leaves_planes_alone<C: Codec>(
    codec: &C,
    settings: HeicSettings,
    f1: Seq<u8>,
    f2: Seq<u8>,
    heif: HeifFile,
    other: HeifFile,
    a: DecodedYuv,
    b: DecodedYuv,
)
    requires
        steady(codec),
        parses(codec, f1, settings.limits, parse_options(settings, true), Ok(heif)),
        parses(codec, f2, settings.limits, parse_options(settings, true), Ok(other)),
        turned_container(heif, other),
        same_data(heif, f1, f2),
        decodes_yuv(codec, settings, f1, Ok(a)),
        decodes_yuv(codec, settings, f2, Ok(b)),
    ensures
        same_but_orientation(a, b),
        a.planes.luma_layout().width == b.planes.luma_layout().width,
        a.planes.luma_layout().height == b.planes.luma_layout().height,
{
    let o = parse_options(settings, true);
    assert forall|c: Result<HeifFile, DecodeError>| #[trigger]
        parses(codec, f1, settings.limits, o, c) implies c == Ok::<HeifFile, DecodeError>(
        heif,
    ) by {}
    assert forall|c: Result<HeifFile, DecodeError>| #[trigger]
        parses(codec, f2, settings.limits, o, c) implies c == Ok::<HeifFile, DecodeError>(
        other,
    ) by {}
    if heif.grid is Some {
        assert(decodes_yuv_grid(codec, settings, f1, heif, heif.grid->0, Ok(a)));
        assert(decodes_yuv_grid(codec, settings, f2, other, other.grid->0, Ok(b)));
        lemma_yuv_grids_alike(codec, settings, f1, f2, heif, other, a, b);
    } else {
        lemma_yuv_items_alike(codec, settings, f1, f2, heif, other, a, b);
    }
}

} // verus!
