//! Images made of tiles: planes in the sample type of the tiles.
use vstd::prelude::*;
use vstd::slice::slice_subrange;
use crate::arith::{floor_over, max_int, min_int};
use crate::codec::{configures, decode_hevc_item_native, decodes_native, Codec};
use crate::color::Cicp;
use crate::config::Sps;
use crate::error::DecodeError;
use crate::formats::{
    ceil_div, div_ceil, rounding_up_is_enough, BitDepth, ChromaFormat, PlanarImage, PlaneBuffer,
    Raster, YuvBuffer,
};
use crate::heif::{GridInfo, HeifItem};
use crate::image::all_tight;
use crate::limits::ParseLimits;
use crate::sample::{no_memory, try_vec, Sample};
use crate::stitch::{
    place_plane, placed, tiles_are_placed_side_by_side, tiles_show_their_plane, TileSource,
};
use crate::tiles::Pps;
use crate::window::opt_plane;
use crate::yuv::{NativePlanes, NativeYuvPlanes};

verus! {

/// The result of decoding something optional: failures count as absence, except for want of memory.
pub open spec fn optional<T>(r: Result<T, DecodeError>) -> Result<Option<T>, DecodeError> {
    match r {
        Ok(v) => Ok(Some(v)),
        Err(e) => if e is AllocationFailed {
            Err(e)
        } else {
            Ok(None)
        },
    }
}

/// Turns failures into absence, except for want of memory.
pub fn optional_auxiliary<T>(result: Result<T, DecodeError>) -> (r: Result<Option<T>, DecodeError>)
    ensures
        r == optional(result),
{
    match result {
        Ok(v) => Ok(Some(v)),
        Err(e) => match e {
            DecodeError::AllocationFailed { .. } => Err(e),
            _ => Ok(None),
        },
    }
}

/// A sample type that tiles come in.
pub trait GridSample: Sample {
    /// The planes of a picture, if it has this sample type.
    spec fn selected(planes: NativeYuvPlanes) -> Option<NativePlanes<Self>>;

    fn select(planes: &NativeYuvPlanes) -> (r: Option<&NativePlanes<Self>>)
        ensures
            match r {
                Some(p) => Self::selected(*planes) == Some(*p),
                None => Self::selected(*planes) is None,
            },
    ;
}

impl GridSample for u8 {
    open spec fn selected(planes: NativeYuvPlanes) -> Option<NativePlanes<Self>> {
        match planes {
            NativeYuvPlanes::U8(p) => Some(p),
            NativeYuvPlanes::U16(_) => None,
        }
    }

    fn select(planes: &NativeYuvPlanes) -> Option<&NativePlanes<Self>> {
        match planes {
            NativeYuvPlanes::U8(p) => Some(p),
            NativeYuvPlanes::U16(_) => None,
        }
    }
}

impl GridSample for u16 {
    open spec fn selected(planes: NativeYuvPlanes) -> Option<NativePlanes<Self>> {
        match planes {
            NativeYuvPlanes::U8(_) => None,
            NativeYuvPlanes::U16(p) => Some(p),
        }
    }

    fn select(planes: &NativeYuvPlanes) -> Option<&NativePlanes<Self>> {
        match planes {
            NativeYuvPlanes::U8(_) => None,
            NativeYuvPlanes::U16(p) => Some(p),
        }
    }
}

/// How the tiles of a grid lie in the image.
#[derive(Clone, Copy, Debug)]
pub struct GridGeometry {
    pub cols: usize,
    pub out_w: usize,
    pub out_h: usize,
    /// Size of the chroma planes.
    pub cw: usize,
    pub ch: usize,
    pub tile_w: usize,
    pub tile_h: usize,
    /// Size of a tile in chroma samples.
    pub tile_cw: usize,
    pub tile_ch: usize,
    pub tile_crop_left: usize,
    pub tile_crop_top: usize,
    pub sub_w: usize,
    pub sub_h: usize,
    pub has_chroma: bool,
}

/// What all bands of a grid share.
pub struct YuvGridCtx<'a> {
    pub file: &'a [u8],
    pub tiles: &'a [HeifItem],
    /// Configuration record of tiles without one of their own.
    pub fallback_hvcc: &'a [u8],
    pub geo: GridGeometry,
}

/// What a grid is made of.
pub struct Grid {
    pub file: Seq<u8>,
    pub tiles: Seq<HeifItem>,
    pub fallback: Seq<u8>,
    pub geo: GridGeometry,
}

impl<'a> View for YuvGridCtx<'a> {
    type V = Grid;

    open spec fn view(&self) -> Grid {
        Grid {
            file: self.file@,
            tiles: self.tiles@,
            fallback: self.fallback_hvcc@,
            geo: self.geo,
        }
    }
}

/// How many of `step` samples from number `k * step` on lie before `total`.
pub open spec fn band_extent(total: int, step: int, k: int) -> int {
    min_int(step, max_int(total - k * step, 0))
}

/// How many of `step` samples from number `k * step` on lie before `total`.
pub fn band_extent_of(total: usize, step: usize, k: usize) -> (r: usize)
    ensures
        r == band_extent(total as int, step as int, k as int),
{
    let start: Option<usize> = k.checked_mul(step);
    match start {
        Some(s) => if s >= total {
            0
        } else if total - s < step {
            total - s
        } else {
            step
        },
        None => 0,
    }
}

/// The planes of a band.
pub struct Bands<T> {
    pub y: Seq<T>,
    pub cb: Seq<T>,
    pub cr: Seq<T>,
}

/// Configuration record of a tile: its own, or the one that stands in.
pub open spec fn tile_hvcc(tile: HeifItem, fallback: Seq<u8>) -> Seq<u8> {
    if tile.hvcc@.len() == 0 {
        fallback
    } else {
        tile.hvcc@
    }
}

/// `r` is the picture of a tile, if there is one: its data must lie in the file, a configuration
/// record must be known, and it must be decodable.
pub open spec fn tile_picture<C: Codec>(
    codec: &C,
    file: Seq<u8>,
    tile: HeifItem,
    fallback: Seq<u8>,
    r: Result<Option<(NativeYuvPlanes, Cicp)>, DecodeError>,
) -> bool {
    let hvcc = tile_hvcc(tile, fallback);
    if !tile.in_file(file.len() as int) || hvcc.len() == 0 {
        r == Ok::<Option<(NativeYuvPlanes, Cicp)>, DecodeError>(None)
    } else {
        exists|d: Result<(NativeYuvPlanes, Cicp), DecodeError>|
            #[trigger] decodes_native(codec, tile.data(file), hvcc, false, d) && r == optional(d)
    }
}

fn decode_tile<C: Codec>(codec: &C, file: &[u8], tile: &HeifItem, fallback: &[u8]) -> (r: Result<
    Option<(NativeYuvPlanes, Cicp)>,
    DecodeError,
>)
    ensures
        tile_picture(codec, file@, *tile, fallback@, r),
{
    let (start, end): (usize, usize) = match tile.range_in(file.len()) {
        Some(t) => t,
        None => return Ok(None),
    };
    let hvcc: &[u8] = if tile.hvcc.len() == 0 {
        fallback
    } else {
        tile.hvcc.as_slice()
    };
    if hvcc.len() == 0 {
        return Ok(None);
    }
    let d: Result<(NativeYuvPlanes, Cicp), DecodeError> = decode_hevc_item_native(
        codec,
        slice_subrange(file, start, end),
        hvcc,
        false,
    );
    assert(decodes_native(codec, tile.data(file@), tile_hvcc(*tile, fallback@), false, d));
    optional_auxiliary(d)
}

impl GridGeometry {
    /// Chroma samples cover at least one luma sample.
    pub open spec fn wf(self) -> bool {
        self.sub_w > 0 && self.sub_h > 0
    }

    /// Bands are large enough for the rows of band `k`.
    pub open spec fn room(self, k: int, y: int, cb: int, cr: int) -> bool {
        let h = band_extent(self.out_h as int, self.tile_h as int, k);
        let c = band_extent(self.ch as int, self.tile_ch as int, k);
        &&& h * self.out_w <= y
        &&& self.has_chroma ==> c * self.cw <= cb && c * self.cw <= cr
    }

    /// Bands after a picture was placed in column `col` of band `k`. Pictures without samples
    /// change nothing, and chroma is placed only if both planes have samples.
    pub open spec fn place<T: Sample>(
        self,
        k: int,
        col: int,
        p: NativePlanes<T>,
        bands: Bands<T>,
    ) -> Bands<T> {
        let w = band_extent(self.out_w as int, self.tile_w as int, col);
        let h = band_extent(self.out_h as int, self.tile_h as int, k);
        if w == 0 || h == 0 || p.width == 0 || p.height == 0 {
            bands
        } else {
            let y = placed(
                bands.y,
                self.out_w as int,
                col * self.tile_w,
                w,
                h,
                TileSource {
                    plane: p.y@,
                    usable: p.y@.len() as int,
                    pw: p.width as int,
                    ph: p.height as int,
                    left: self.tile_crop_left as int,
                    top: self.tile_crop_top as int,
                },
            );
            let cw = band_extent(self.cw as int, self.tile_cw as int, col);
            let ch = band_extent(self.ch as int, self.tile_ch as int, k);
            if !self.has_chroma || p.cb@.len() == 0 || p.cr@.len() == 0 || cw == 0 || ch == 0 {
                Bands { y, ..bands }
            } else {
                Bands {
                    y,
                    cb: placed(
                        bands.cb,
                        self.cw as int,
                        col * self.tile_cw,
                        cw,
                        ch,
                        self.chroma_source(p, p.cb@),
                    ),
                    cr: placed(
                        bands.cr,
                        self.cw as int,
                        col * self.tile_cw,
                        cw,
                        ch,
                        self.chroma_source(p, p.cr@),
                    ),
                }
            }
        }
    }

    /// A chroma plane of a picture as a source of tiles. As many samples count as both chroma
    /// planes have.
    pub open spec fn chroma_source<T: Sample>(self, p: NativePlanes<T>, plane: Seq<T>) -> TileSource<
        T,
    > {
        TileSource {
            plane,
            usable: min_int(p.cb@.len() as int, p.cr@.len() as int),
            pw: ceil_div(p.width as int, self.sub_w as int),
            ph: ceil_div(p.height as int, self.sub_h as int),
            left: self.tile_crop_left as int / self.sub_w as int,
            top: self.tile_crop_top as int / self.sub_h as int,
        }
    }
}

impl Grid {
    /// `r` is what placing the tiles of band `k` gives, from column `col` on.
    pub open spec fn stitches<C: Codec, T: GridSample>(
        self,
        codec: &C,
        k: int,
        col: int,
        bands: Bands<T>,
        r: Result<Bands<T>, DecodeError>,
    ) -> bool
        decreases self.geo.cols - col,
    {
        let idx = k * self.geo.cols + col;
        if col >= self.geo.cols || idx >= self.tiles.len() {
            r == Ok::<Bands<T>, DecodeError>(bands)
        } else {
            exists|d: Result<Option<(NativeYuvPlanes, Cicp)>, DecodeError>|
                {
                    &&& #[trigger] tile_picture(
                        codec,
                        self.file,
                        self.tiles[idx],
                        self.fallback,
                        d,
                    )
                    &&& match d {
                        Err(e) => r == Err::<Bands<T>, DecodeError>(e),
                        Ok(p) => self.stitches(
                            codec,
                            k,
                            col + 1,
                            self.with_tile(k, col, p, bands),
                            r,
                        ),
                    }
                }
        }
    }

    /// Bands after a tile that may have no picture, or one of another sample type.
    pub open spec fn with_tile<T: GridSample>(
        self,
        k: int,
        col: int,
        p: Option<(NativeYuvPlanes, Cicp)>,
        bands: Bands<T>,
    ) -> Bands<T> {
        match p {
            Some((native, _)) => match T::selected(native) {
                Some(planes) => self.geo.place(k, col, planes, bands),
                None => bands,
            },
            None => bands,
        }
    }
}

proof fn lemma_band_extent(total: int, step: int, k: int)
    requires
        0 <= total,
        0 <= step,
        0 <= k,
    ensures
        0 <= band_extent(total, step, k) <= step,
        band_extent(total, step, k) > 0 ==> 0 <= k * step && k * step + band_extent(total, step, k)
            <= total,
{
    assert(0 <= k * step) by (nonlinear_arith)
        requires
            0 <= step,
            0 <= k,
    ;
}

/// Places a picture into the bands.
pub fn place_tile<T: Sample>(
    ctx: &GridGeometry,
    band_row: usize,
    col: usize,
    planes: &NativePlanes<T>,
    y_band: &mut [T],
    cb_band: &mut [T],
    cr_band: &mut [T],
)
    requires
        ctx.wf(),
        ctx.room(
            band_row as int,
            old(y_band)@.len() as int,
            old(cb_band)@.len() as int,
            old(cr_band)@.len() as int,
        ),
    ensures
        final(y_band)@.len() == old(y_band)@.len(),
        final(cb_band)@.len() == old(cb_band)@.len(),
        final(cr_band)@.len() == old(cr_band)@.len(),
        (Bands { y: final(y_band)@, cb: final(cb_band)@, cr: final(cr_band)@ }) == ctx.place(
            band_row as int,
            col as int,
            *planes,
            Bands { y: old(y_band)@, cb: old(cb_band)@, cr: old(cr_band)@ },
        ),
{
    let w: usize = band_extent_of(ctx.out_w, ctx.tile_w, col);
    let h: usize = band_extent_of(ctx.out_h, ctx.tile_h, band_row);
    if w == 0 || h == 0 || planes.width == 0 || planes.height == 0 {
        return;
    }
    proof {
        lemma_band_extent(ctx.out_w as int, ctx.tile_w as int, col as int);
    }
    place_plane(
        y_band,
        ctx.out_w,
        col * ctx.tile_w,
        w,
        h,
        planes.y.as_slice(),
        planes.y.len(),
        planes.width,
        planes.height,
        ctx.tile_crop_left,
        ctx.tile_crop_top,
    );
    if !ctx.has_chroma || planes.cb.len() == 0 || planes.cr.len() == 0 {
        return;
    }
    let cw: usize = band_extent_of(ctx.cw, ctx.tile_cw, col);
    let ch: usize = band_extent_of(ctx.ch, ctx.tile_ch, band_row);
    if cw == 0 || ch == 0 {
        return;
    }
    let plane_cw: usize = div_ceil(planes.width, ctx.sub_w);
    let plane_ch: usize = div_ceil(planes.height, ctx.sub_h);
    let usable: usize = if planes.cb.len() < planes.cr.len() {
        planes.cb.len()
    } else {
        planes.cr.len()
    };
    proof {
        lemma_band_extent(ctx.cw as int, ctx.tile_cw as int, col as int);
        lemma_ceil_div_positive(planes.width as int, ctx.sub_w as int);
        lemma_ceil_div_positive(planes.height as int, ctx.sub_h as int);
    }
    place_plane(
        cb_band,
        ctx.cw,
        col * ctx.tile_cw,
        cw,
        ch,
        planes.cb.as_slice(),
        usable,
        plane_cw,
        plane_ch,
        ctx.tile_crop_left / ctx.sub_w,
        ctx.tile_crop_top / ctx.sub_h,
    );
    place_plane(
        cr_band,
        ctx.cw,
        col * ctx.tile_cw,
        cw,
        ch,
        planes.cr.as_slice(),
        usable,
        plane_cw,
        plane_ch,
        ctx.tile_crop_left / ctx.sub_w,
        ctx.tile_crop_top / ctx.sub_h,
    );
}

pub proof fn lemma_ceil_div_positive(a: int, b: int)
    requires
        a > 0,
        b > 0,
    ensures
        ceil_div(a, b) > 0,
{
    assert((a + b - 1) / b >= 1) by (nonlinear_arith)
        requires
            a >= 1,
            b >= 1,
    ;
}

/// Number of the tile in column `col` of row `k`, if there is such a tile.
pub fn tile_index(k: usize, cols: usize, col: usize, count: usize) -> (r: Option<usize>)
    ensures
        match r {
            Some(i) => i == k * cols + col && i < count,
            None => k * cols + col >= count,
        },
{
    let first: Option<usize> = k.checked_mul(cols);
    match first {
        Some(f) => if f < count && col < count - f {
            Some(f + col)
        } else {
            None
        },
        None => None,
    }
}

/// Decodes the tiles of a band and places them.
pub fn stitch_native_yuv_band<C: Codec, T: GridSample>(
    codec: &C,
    ctx: &YuvGridCtx<'_>,
    band_row: usize,
    y_band: &mut [T],
    cb_band: &mut [T],
    cr_band: &mut [T],
) -> (r: Result<(), DecodeError>)
    requires
        ctx.geo.wf(),
        ctx.geo.room(
            band_row as int,
            old(y_band)@.len() as int,
            old(cb_band)@.len() as int,
            old(cr_band)@.len() as int,
        ),
    ensures
        final(y_band)@.len() == old(y_band)@.len(),
        final(cb_band)@.len() == old(cb_band)@.len(),
        final(cr_band)@.len() == old(cr_band)@.len(),
        ctx@.stitches(
            codec,
            band_row as int,
            0,
            Bands { y: old(y_band)@, cb: old(cb_band)@, cr: old(cr_band)@ },
            match r {
                Ok(()) => Ok(
                    Bands { y: final(y_band)@, cb: final(cb_band)@, cr: final(cr_band)@ },
                ),
                Err(e) => Err(e),
            },
        ),
{
    let ghost start = Bands { y: y_band@, cb: cb_band@, cr: cr_band@ };
    let mut col: usize = 0;
    while col < ctx.geo.cols
        invariant_except_break
            ctx.geo.wf(),
            ctx.geo.room(
                band_row as int,
                y_band@.len() as int,
                cb_band@.len() as int,
                cr_band@.len() as int,
            ),
            col <= ctx.geo.cols,
            start == (Bands { y: old(y_band)@, cb: old(cb_band)@, cr: old(cr_band)@ }),
            y_band@.len() == start.y.len(),
            cb_band@.len() == start.cb.len(),
            cr_band@.len() == start.cr.len(),
            forall|r: Result<Bands<T>, DecodeError>|
                ctx@.stitches(
                    codec,
                    band_row as int,
                    col as int,
                    Bands { y: y_band@, cb: cb_band@, cr: cr_band@ },
                    r,
                ) ==> #[trigger] ctx@.stitches(codec, band_row as int, 0, start, r),
        ensures
            y_band@.len() == start.y.len(),
            cb_band@.len() == start.cb.len(),
            cr_band@.len() == start.cr.len(),
            ctx@.stitches(
                codec,
                band_row as int,
                0,
                start,
                Ok(Bands { y: y_band@, cb: cb_band@, cr: cr_band@ }),
            ),
        decreases ctx.geo.cols - col,
    {
        let ghost before = Bands { y: y_band@, cb: cb_band@, cr: cr_band@ };
        let idx: usize = match tile_index(band_row, ctx.geo.cols, col, ctx.tiles.len()) {
            Some(i) => i,
            None => {
                proof {
                    let out: Result<Bands<T>, DecodeError> = Ok(before);
                    assert(ctx@.stitches(codec, band_row as int, col as int, before, out));
                }
                break;
            },
        };
        let d: Result<Option<(NativeYuvPlanes, Cicp)>, DecodeError> = decode_tile(
            codec,
            ctx.file,
            &ctx.tiles[idx],
            ctx.fallback_hvcc,
        );
        assert(tile_picture(codec, ctx@.file, ctx@.tiles[idx as int], ctx@.fallback, d));
        let p: Option<(NativeYuvPlanes, Cicp)> = match d {
            Ok(p) => p,
            Err(e) => {
                proof {
                    let out: Result<Bands<T>, DecodeError> = Err(e);
                    assert(ctx@.stitches(codec, band_row as int, col as int, before, out));
                }
                return Err(e);
            },
        };
        if let Some((native, _)) = &p {
            if let Some(planes) = T::select(native) {
                place_tile(&ctx.geo, band_row, col, planes, y_band, cb_band, cr_band);
            }
        }
        assert(Bands { y: y_band@, cb: cb_band@, cr: cr_band@ } == ctx@.with_tile(
            band_row as int,
            col as int,
            p,
            before,
        ));
        proof {
            assert forall|r: Result<Bands<T>, DecodeError>|
                ctx@.stitches(
                    codec,
                    band_row as int,
                    col + 1,
                    Bands { y: y_band@, cb: cb_band@, cr: cr_band@ },
                    r,
                ) implies #[trigger] ctx@.stitches(codec, band_row as int, 0, start, r) by {
                assert(ctx@.stitches(codec, band_row as int, col as int, before, r));
            }
        }
        col = col + 1;
        proof {
            if col >= ctx.geo.cols {
                let out: Result<Bands<T>, DecodeError> = Ok(
                    Bands { y: y_band@, cb: cb_band@, cr: cr_band@ },
                );
                assert(ctx@.stitches(
                    codec,
                    band_row as int,
                    col as int,
                    Bands { y: y_band@, cb: cb_band@, cr: cr_band@ },
                    out,
                ));
            }
        }
    }
    Ok(())
}

/// A plane with the part from `lo` on replaced.
pub open spec fn with_part<T>(plane: Seq<T>, lo: int, part: Seq<T>) -> Seq<T> {
    plane.take(lo) + part + plane.skip(lo + part.len())
}

impl GridGeometry {
    /// First luma sample of band `k`, and how many samples it has.
    pub open spec fn luma_band(self, k: int) -> (int, int) {
        (
            k * self.tile_h * self.out_w,
            band_extent(self.out_h as int, self.tile_h as int, k) * self.out_w,
        )
    }

    /// First chroma sample of band `k`, and how many samples it has.
    pub open spec fn chroma_band(self, k: int) -> (int, int) {
        (
            k * self.tile_ch * self.cw,
            band_extent(self.ch as int, self.tile_ch as int, k) * self.cw,
        )
    }

    /// The parts of the planes that belong to band `k`; a band may be without chroma.
    pub open spec fn cut<T: Sample>(self, k: int, planes: Bands<T>) -> Bands<T> {
        let (lo, n) = self.luma_band(k);
        let (c, m) = self.chroma_band(k);
        Bands {
            y: planes.y.subrange(lo, lo + n),
            cb: if m > 0 {
                planes.cb.subrange(c, c + m)
            } else {
                Seq::empty()
            },
            cr: if m > 0 {
                planes.cr.subrange(c, c + m)
            } else {
                Seq::empty()
            },
        }
    }

    /// The planes with the parts that belong to band `k` replaced.
    pub open spec fn merge<T: Sample>(self, k: int, planes: Bands<T>, part: Bands<T>) -> Bands<T> {
        let (lo, n) = self.luma_band(k);
        let (c, m) = self.chroma_band(k);
        Bands {
            y: with_part(planes.y, lo, part.y),
            cb: if m > 0 {
                with_part(planes.cb, c, part.cb)
            } else {
                planes.cb
            },
            cr: if m > 0 {
                with_part(planes.cr, c, part.cr)
            } else {
                planes.cr
            },
        }
    }
}

impl Grid {
    /// `r` is what filling the bands from number `k` on gives.
    pub open spec fn fills<C: Codec, T: GridSample>(
        self,
        codec: &C,
        rows: int,
        k: int,
        planes: Bands<T>,
        r: Result<Bands<T>, DecodeError>,
    ) -> bool
        decreases rows - k,
    {
        if k >= rows {
            r == Ok::<Bands<T>, DecodeError>(planes)
        } else if self.geo.luma_band(k).1 <= 0 {
            self.fills(codec, rows, k + 1, planes, r)
        } else {
            exists|b: Result<Bands<T>, DecodeError>|
                {
                    &&& #[trigger] self.stitches(codec, k, 0, self.geo.cut(k, planes), b)
                    &&& match b {
                        Err(e) => r == Err::<Bands<T>, DecodeError>(e),
                        Ok(part) => self.fills(
                            codec,
                            rows,
                            k + 1,
                            self.geo.merge(k, planes, part),
                            r,
                        ),
                    }
                }
        }
    }
}

/// Bands are cut out of the picture without overlap, and nothing lies between them: each starts
/// where the one before ends, and those within the picture lie inside it.
pub proof fn bands_partition_the_picture(extent: int, step: int, pitch: int, k: int)
    requires
        0 <= extent,
        0 <= step,
        0 <= pitch,
        0 <= k,
        band_extent(extent, step, k) > 0,
    ensures
        0 <= k * step * pitch,
        k * step * pitch + band_extent(extent, step, k) * pitch <= extent * pitch,
        band_extent(extent, step, k + 1) > 0 ==> (k + 1) * step * pitch == k * step * pitch
            + band_extent(extent, step, k) * pitch,
{
    let n = band_extent(extent, step, k);
    let s = k * step;
    lemma_band_extent(extent, step, k);
    assert(0 <= s * pitch) by (nonlinear_arith)
        requires
            0 <= s,
            0 <= pitch,
    ;
    assert(s * pitch + n * pitch <= extent * pitch) by (nonlinear_arith)
        requires
            s + n <= extent,
            0 <= pitch,
    ;
    assert((k + 1) * step == s + step) by (nonlinear_arith)
        requires
            s == k * step,
    ;
    if band_extent(extent, step, k + 1) > 0 {
        assert(n == step);
        assert((s + step) * pitch == s * pitch + step * pitch) by (nonlinear_arith);
    }
}

fn stitch_row<C: Codec, T: GridSample>(
    codec: &C,
    ctx: &YuvGridCtx<'_>,
    row: usize,
    y: &mut [T],
    cb: &mut [T],
    cr: &mut [T],
) -> (r: Result<(), DecodeError>)
    requires
        ctx.geo.wf(),
        old(y)@.len() == ctx.geo.out_w * ctx.geo.out_h,
        old(cb)@.len() == ctx.geo.cw * ctx.geo.ch,
        old(cr)@.len() == ctx.geo.cw * ctx.geo.ch,
        ctx.geo.luma_band(row as int).1 > 0,
    ensures
        final(y)@.len() == old(y)@.len(),
        final(cb)@.len() == old(cb)@.len(),
        final(cr)@.len() == old(cr)@.len(),
        ({
            let planes = Bands { y: old(y)@, cb: old(cb)@, cr: old(cr)@ };
            exists|b: Result<Bands<T>, DecodeError>|
                {
                    &&& #[trigger] ctx@.stitches(codec, row as int, 0, ctx.geo.cut(row as int, planes), b)
                    &&& match b {
                        Err(e) => r == Err::<(), DecodeError>(e),
                        Ok(part) => {
                            &&& r is Ok
                            &&& (Bands { y: final(y)@, cb: final(cb)@, cr: final(cr)@ })
                                == ctx.geo.merge(row as int, planes, part)
                        },
                    }
                }
        }),
{
    let ghost planes = Bands { y: y@, cb: cb@, cr: cr@ };
    let y_len: usize = y.len();
    let c_len: usize = cb.len();
    let h: usize = band_extent_of(ctx.geo.out_h, ctx.geo.tile_h, row);
    let c: usize = band_extent_of(ctx.geo.ch, ctx.geo.tile_ch, row);
    proof {
        assert(h > 0) by (nonlinear_arith)
            requires
                h * ctx.geo.out_w > 0,
                h >= 0,
        ;
        lemma_band_extent(ctx.geo.out_h as int, ctx.geo.tile_h as int, row as int);
        bands_partition_the_picture(
            ctx.geo.out_h as int,
            ctx.geo.tile_h as int,
            ctx.geo.out_w as int,
            row as int,
        );
        assert(ctx.geo.out_w * ctx.geo.out_h == ctx.geo.out_h * ctx.geo.out_w) by (nonlinear_arith);
        assert(0 <= h * ctx.geo.out_w) by (nonlinear_arith)
            requires
                0 <= h,
                0 <= ctx.geo.out_w,
        ;
    }
    let lo: usize = row * ctx.geo.tile_h * ctx.geo.out_w;
    let n: usize = h * ctx.geo.out_w;
    let (y_head, y_tail) = y.split_at_mut(lo);
    let (y_band, y_rest) = y_tail.split_at_mut(n);
    if c > 0 && ctx.geo.cw > 0 {
        proof {
            lemma_band_extent(ctx.geo.ch as int, ctx.geo.tile_ch as int, row as int);
            bands_partition_the_picture(
                ctx.geo.ch as int,
                ctx.geo.tile_ch as int,
                ctx.geo.cw as int,
                row as int,
            );
            assert(ctx.geo.cw * ctx.geo.ch == ctx.geo.ch * ctx.geo.cw) by (nonlinear_arith);
            assert(0 < c * ctx.geo.cw) by (nonlinear_arith)
                requires
                    0 < c,
                    0 < ctx.geo.cw,
            ;
        }
        let c_lo: usize = row * ctx.geo.tile_ch * ctx.geo.cw;
        let m: usize = c * ctx.geo.cw;
        let (cb_head, cb_tail) = cb.split_at_mut(c_lo);
        let (cb_band, cb_rest) = cb_tail.split_at_mut(m);
        let (cr_head, cr_tail) = cr.split_at_mut(c_lo);
        let (cr_band, cr_rest) = cr_tail.split_at_mut(m);
        proof {
            let part = ctx.geo.cut(row as int, planes);
            assert(part.y =~= y_band@);
            assert(part.cb =~= cb_band@);
            assert(part.cr =~= cr_band@);
        }
        let r: Result<(), DecodeError> = stitch_native_yuv_band(
            codec,
            ctx,
            row,
            y_band,
            cb_band,
            cr_band,
        );
        let ghost part = Bands { y: y_band@, cb: cb_band@, cr: cr_band@ };
        proof {
            let b: Result<Bands<T>, DecodeError> = match r {
                Ok(()) => Ok(part),
                Err(e) => Err(e),
            };
            assert(ctx@.stitches(codec, row as int, 0, ctx.geo.cut(row as int, planes), b));
        }
        assert(y@ =~= with_part(planes.y, lo as int, part.y));
        assert(cb@ =~= with_part(planes.cb, c_lo as int, part.cb));
        assert(cr@ =~= with_part(planes.cr, c_lo as int, part.cr));
        r
    } else {
        proof {
            assert(c * ctx.geo.cw == 0) by (nonlinear_arith)
                requires
                    c == 0 || ctx.geo.cw == 0,
            ;
        }
        let mut none_cb: Vec<T> = Vec::new();
        let mut none_cr: Vec<T> = Vec::new();
        proof {
            let part = ctx.geo.cut(row as int, planes);
            assert(part.y =~= y_band@);
            assert(part.cb =~= none_cb@);
            assert(part.cr =~= none_cr@);
        }
        let r: Result<(), DecodeError> = stitch_native_yuv_band(
            codec,
            ctx,
            row,
            y_band,
            none_cb.as_mut_slice(),
            none_cr.as_mut_slice(),
        );
        let ghost part = Bands { y: y_band@, cb: none_cb@, cr: none_cr@ };
        proof {
            let b: Result<Bands<T>, DecodeError> = match r {
                Ok(()) => Ok(part),
                Err(e) => Err(e),
            };
            assert(ctx@.stitches(codec, row as int, 0, ctx.geo.cut(row as int, planes), b));
        }
        assert(y@ =~= with_part(planes.y, lo as int, part.y));
        r
    }
}

impl GridGeometry {
    /// Planes in which nothing has been placed.
    pub open spec fn blank<T: Sample>(self) -> Bands<T> {
        let c = Seq::new((self.cw * self.ch) as nat, |i: int| T::of_zero());
        Bands {
            y: Seq::new((self.out_w * self.out_h) as nat, |i: int| T::of_zero()),
            cb: c,
            cr: c,
        }
    }

    /// `image` has the given planes; chroma only if the grid has.
    pub open spec fn holds<T: Sample>(self, image: PlanarImage<T>, planes: Bands<T>) -> bool {
        &&& image.wf()
        &&& all_tight(image)
        &&& image.y@ == (Raster {
            width: self.out_w as int,
            height: self.out_h as int,
            samples: planes.y,
        })
        &&& opt_plane(image.cb) == if self.has_chroma {
            Some(
                Raster { width: self.cw as int, height: self.ch as int, samples: planes.cb },
            )
        } else {
            None
        }
        &&& opt_plane(image.cr) == if self.has_chroma {
            Some(
                Raster { width: self.cw as int, height: self.ch as int, samples: planes.cr },
            )
        } else {
            None
        }
    }

    /// There was no memory for one of the planes.
    pub open spec fn lacks_memory<T: Sample>(self, e: DecodeError) -> bool {
        ||| e == no_memory::<T>("grid luma plane", self.out_w * self.out_h)
        ||| e == no_memory::<T>("grid Cb plane", self.cw * self.ch)
        ||| e == no_memory::<T>("grid Cr plane", self.cw * self.ch)
    }
}

impl Grid {
    /// `r` is the image that the tiles make in the given planes.
    pub open spec fn fills_image<C: Codec, T: GridSample>(
        self,
        codec: &C,
        rows: int,
        start: Bands<T>,
        r: Result<PlanarImage<T>, DecodeError>,
    ) -> bool {
        exists|f: Result<Bands<T>, DecodeError>|
            {
                &&& #[trigger] self.fills(codec, rows, 0, start, f)
                &&& match f {
                    Err(e) => r == Err::<PlanarImage<T>, DecodeError>(e),
                    Ok(planes) => r matches Ok(image) && self.geo.holds(image, planes),
                }
            }
    }

    /// `r` is the image that the tiles make.
    pub open spec fn composes<C: Codec, T: GridSample>(
        self,
        codec: &C,
        rows: int,
        r: Result<PlanarImage<T>, DecodeError>,
    ) -> bool {
        if self.geo.out_w * self.geo.out_h > usize::MAX {
            r == Err::<PlanarImage<T>, DecodeError>(
                DecodeError::Bitstream("grid luma dimensions overflow usize"),
            )
        } else if self.geo.cw * self.geo.ch > usize::MAX {
            r == Err::<PlanarImage<T>, DecodeError>(
                DecodeError::Bitstream("grid chroma dimensions overflow usize"),
            )
        } else {
            ||| r matches Err(e) && self.geo.lacks_memory::<T>(e)
            ||| self.fills_image(codec, rows, self.geo.blank::<T>(), r)
        }
    }
}

/// Decodes all tiles of a grid into the given planes.
pub fn filled_native_grid<C: Codec, T: GridSample>(
    codec: &C,
    rows: usize,
    ctx: &YuvGridCtx<'_>,
    luma: Vec<T>,
    chroma_b: Vec<T>,
    chroma_r: Vec<T>,
) -> (r: Result<PlanarImage<T>, DecodeError>)
    requires
        ctx.geo.wf(),
        luma@.len() == ctx.geo.out_w * ctx.geo.out_h,
        chroma_b@.len() == ctx.geo.cw * ctx.geo.ch,
        chroma_r@.len() == ctx.geo.cw * ctx.geo.ch,
    ensures
        ctx@.fills_image(
            codec,
            rows as int,
            (Bands { y: luma@, cb: chroma_b@, cr: chroma_r@ }),
            r,
        ),
{
    let geo: GridGeometry = ctx.geo;
    let y_total: usize = luma.len();
    let c_total: usize = chroma_b.len();
    let mut y: Vec<T> = luma;
    let mut cb: Vec<T> = chroma_b;
    let mut cr: Vec<T> = chroma_r;
    let ghost start = Bands { y: y@, cb: cb@, cr: cr@ };
    let mut row: usize = 0;
    while row < rows
        invariant
            geo == ctx.geo,
            geo.wf(),
            row <= rows,
            start == (Bands { y: luma@, cb: chroma_b@, cr: chroma_r@ }),
            y_total == geo.out_w * geo.out_h,
            c_total == geo.cw * geo.ch,
            y@.len() == y_total,
            cb@.len() == c_total,
            cr@.len() == c_total,
            forall|r: Result<Bands<T>, DecodeError>|
                ctx@.fills(
                    codec,
                    rows as int,
                    row as int,
                    Bands { y: y@, cb: cb@, cr: cr@ },
                    r,
                ) ==> #[trigger] ctx@.fills(codec, rows as int, 0, start, r),
        decreases rows - row,
    {
        let ghost before = Bands { y: y@, cb: cb@, cr: cr@ };
        let h: usize = band_extent_of(geo.out_h, geo.tile_h, row);
        if h > 0 && geo.out_w > 0 {
            proof {
                assert(h * geo.out_w > 0) by (nonlinear_arith)
                    requires
                        h > 0,
                        geo.out_w > 0,
                ;
            }
            let r: Result<(), DecodeError> = stitch_row(
                codec,
                ctx,
                row,
                y.as_mut_slice(),
                cb.as_mut_slice(),
                cr.as_mut_slice(),
            );
            match r {
                Err(e) => {
                    proof {
                        let out: Result<Bands<T>, DecodeError> = Err(e);
                        assert(ctx@.fills(codec, rows as int, row as int, before, out));
                        assert(ctx@.fills(codec, rows as int, 0, start, out));
                    }
                    return Err(e);
                },
                Ok(()) => {
                    proof {
                        let after = Bands { y: y@, cb: cb@, cr: cr@ };
                        assert forall|r: Result<Bands<T>, DecodeError>|
                            ctx@.fills(codec, rows as int, row + 1, after, r)
                                implies #[trigger] ctx@.fills(codec, rows as int, 0, start, r) by {
                            assert(ctx@.fills(codec, rows as int, row as int, before, r));
                        }
                    }
                },
            }
        } else {
            proof {
                assert(h * geo.out_w == 0) by (nonlinear_arith)
                    requires
                        h == 0 || geo.out_w == 0,
                ;
                assert forall|r: Result<Bands<T>, DecodeError>|
                    ctx@.fills(codec, rows as int, row + 1, before, r)
                        implies #[trigger] ctx@.fills(codec, rows as int, 0, start, r) by {
                    assert(ctx@.fills(codec, rows as int, row as int, before, r));
                }
            }
        }
        row = row + 1;
    }
    let ghost planes = Bands { y: y@, cb: cb@, cr: cr@ };
    proof {
        let out: Result<Bands<T>, DecodeError> = Ok(planes);
        assert(ctx@.fills(codec, rows as int, row as int, planes, out));
        assert(ctx@.fills(codec, rows as int, 0, start, out));
    }
    let y: PlaneBuffer<T> = PlaneBuffer::tight(y, geo.out_w, geo.out_h);
    if geo.has_chroma {
        let cb: PlaneBuffer<T> = PlaneBuffer::tight(cb, geo.cw, geo.ch);
        let cr: PlaneBuffer<T> = PlaneBuffer::tight(cr, geo.cw, geo.ch);
        let image: PlanarImage<T> = PlanarImage { y, cb: Some(cb), cr: Some(cr) };
        assert(geo.holds(image, planes));
        Ok(image)
    } else {
        let image: PlanarImage<T> = PlanarImage { y, cb: None, cr: None };
        assert(geo.holds(image, planes));
        Ok(image)
    }
}

/// Decodes all tiles of a grid into one image.
pub fn fill_native_grid_yuv<C: Codec, T: GridSample>(codec: &C, rows: usize, ctx: &YuvGridCtx<'_>)
    -> (r: Result<PlanarImage<T>, DecodeError>)
    requires
        ctx.geo.wf(),
    ensures
        ctx@.composes(codec, rows as int, r),
{
    let geo: GridGeometry = ctx.geo;
    let y_total: usize = match geo.out_w.checked_mul(geo.out_h) {
        Some(n) => n,
        None => return Err(DecodeError::Bitstream("grid luma dimensions overflow usize")),
    };
    let c_total: usize = match geo.cw.checked_mul(geo.ch) {
        Some(n) => n,
        None => return Err(DecodeError::Bitstream("grid chroma dimensions overflow usize")),
    };
    let y: Vec<T> = match try_vec(T::zero(), y_total, "grid luma plane") {
        Ok(v) => v,
        Err(e) => return Err(e),
    };
    let cb: Vec<T> = match try_vec(T::zero(), c_total, "grid Cb plane") {
        Ok(v) => v,
        Err(e) => return Err(e),
    };
    let cr: Vec<T> = match try_vec(T::zero(), c_total, "grid Cr plane") {
        Ok(v) => v,
        Err(e) => return Err(e),
    };
    proof {
        let blank = ctx.geo.blank::<T>();
        assert(y@ =~= blank.y);
        assert(cb@ =~= blank.cb);
        assert(cr@ =~= blank.cr);
    }
    filled_native_grid(codec, rows, ctx, y, cb, cr)
}

/// A decoded grid.
pub struct NativeGridImage {
    pub planes: YuvBuffer,
    pub bit_depth: BitDepth,
    pub chroma: ChromaFormat,
    /// Colour signalling of the tiles.
    pub vui_color: Cicp,
}

/// The first configuration record among the tiles from number `k` on; empty if there is none.
pub open spec fn first_hvcc(tiles: Seq<HeifItem>, k: int) -> Seq<u8>
    decreases tiles.len() - k,
{
    if k >= tiles.len() {
        Seq::empty()
    } else if tiles[k].hvcc@.len() > 0 {
        tiles[k].hvcc@
    } else {
        first_hvcc(tiles, k + 1)
    }
}

/// The first configuration record among the tiles.
pub fn fallback_hvcc(tiles: &Vec<HeifItem>) -> (r: Vec<u8>)
    ensures
        r@ == first_hvcc(tiles@, 0),
{
    let mut k: usize = 0;
    while k < tiles.len()
        invariant
            k <= tiles@.len(),
            first_hvcc(tiles@, 0) == first_hvcc(tiles@, k as int),
        decreases tiles@.len() - k,
    {
        if tiles[k].hvcc.len() > 0 {
            let v: Vec<u8> = tiles[k].hvcc.clone();
            assert(v@ =~= tiles@[k as int].hvcc@);
            return v;
        }
        k = k + 1;
    }
    Vec::new()
}

/// The configuration record that stands for a whole grid is the first there is.
pub proof fn grid_hvcc_is_the_first(tiles: Seq<HeifItem>)
    requires
        tiles.len() > 0,
    ensures
        tile_hvcc(tiles[0], first_hvcc(tiles, 0)) == first_hvcc(tiles, 0),
{
}

/// How tiles of a sequence lie in a grid. Tiles have the visible size of the sequence; if that is
/// empty the output is divided evenly.
pub open spec fn native_geometry(grid: GridInfo, sps: Sps) -> GridGeometry {
    let out_w = grid.output_width as int;
    let out_h = grid.output_height as int;
    let (vw, vh) = sps.visible();
    let (tw, th) = if vw != 0 && vh != 0 {
        (vw, vh)
    } else {
        (ceil_div(out_w, grid.cols as int), ceil_div(out_h, grid.rows as int))
    };
    let sx = sps.chroma.step_x();
    let sy = sps.chroma.step_y();
    let has_chroma = !(sps.chroma is Monochrome);
    GridGeometry {
        cols: grid.cols as usize,
        out_w: out_w as usize,
        out_h: out_h as usize,
        cw: if has_chroma {
            ceil_div(out_w, sx) as usize
        } else {
            0
        },
        ch: if has_chroma {
            ceil_div(out_h, sy) as usize
        } else {
            0
        },
        tile_w: tw as usize,
        tile_h: th as usize,
        tile_cw: ceil_div(tw, sx) as usize,
        tile_ch: ceil_div(th, sy) as usize,
        tile_crop_left: sps.crop_left as usize,
        tile_crop_top: sps.crop_top as usize,
        sub_w: sx as usize,
        sub_h: sy as usize,
        has_chroma,
    }
}

/// The output of a grid would have to be divided by no columns or no rows.
pub open spec fn undivided(grid: GridInfo, sps: Sps) -> bool {
    let (vw, vh) = sps.visible();
    (vw == 0 || vh == 0) && (grid.cols == 0 || grid.rows == 0)
}

/// `r` is the planes of a grid of tiles of a known sequence: 8-bit tiles in bytes, others in 16
/// bits.
pub open spec fn composes_native<C: Codec>(
    codec: &C,
    file: Seq<u8>,
    grid: GridInfo,
    sps: Sps,
    r: Result<NativeGridImage, DecodeError>,
) -> bool {
    let model = Grid {
        file,
        tiles: grid.tiles@,
        fallback: first_hvcc(grid.tiles@, 0),
        geo: native_geometry(grid, sps),
    };
    let depth = BitDepth::signalled(sps.bit_depth_luma as int);
    if undivided(grid, sps) {
        r == Err::<NativeGridImage, DecodeError>(
            DecodeError::Bitstream("grid has no columns or rows"),
        )
    } else if depth is Eight {
        exists|p: Result<PlanarImage<u8>, DecodeError>|
            {
                &&& #[trigger] model.composes(codec, grid.rows as int, p)
                &&& match p {
                    Err(e) => r == Err::<NativeGridImage, DecodeError>(e),
                    Ok(image) => r == Ok::<NativeGridImage, DecodeError>(
                        NativeGridImage {
                            planes: YuvBuffer::U8(image),
                            bit_depth: depth,
                            chroma: sps.chroma,
                            vui_color: sps.color(),
                        },
                    ),
                }
            }
    } else {
        exists|p: Result<PlanarImage<u16>, DecodeError>|
            {
                &&& #[trigger] model.composes(codec, grid.rows as int, p)
                &&& match p {
                    Err(e) => r == Err::<NativeGridImage, DecodeError>(e),
                    Ok(image) => r == Ok::<NativeGridImage, DecodeError>(
                        NativeGridImage {
                            planes: YuvBuffer::U16(image),
                            bit_depth: depth,
                            chroma: sps.chroma,
                            vui_color: sps.color(),
                        },
                    ),
                }
            }
    }
}

/// `r` is the planes of a grid.
pub open spec fn decodes_native_grid<C: Codec>(
    codec: &C,
    limits: ParseLimits,
    file: Seq<u8>,
    grid: GridInfo,
    r: Result<NativeGridImage, DecodeError>,
) -> bool {
    let hvcc = first_hvcc(grid.tiles@, 0);
    match limits.complaint(grid.output_width, grid.output_height) {
        Some(e) => r == Err::<NativeGridImage, DecodeError>(e),
        None => if grid.tiles@.len() == 0 {
            r == Err::<NativeGridImage, DecodeError>(DecodeError::Bitstream("grid has no tiles"))
        } else if hvcc.len() == 0 {
            r == Err::<NativeGridImage, DecodeError>(DecodeError::MissingBox("grid hvcC property"))
        } else {
            exists|ps: Result<(Sps, Pps), DecodeError>|
                {
                    &&& #[trigger] configures(codec, hvcc, ps)
                    &&& match ps {
                        Err(e) => r == Err::<NativeGridImage, DecodeError>(e),
                        Ok((sps, _)) => composes_native(codec, file, grid, sps, r),
                    }
                }
        },
    }
}

fn native_geometry_of(grid: &GridInfo, sps: &Sps) -> (r: GridGeometry)
    requires
        !undivided(*grid, *sps),
    ensures
        r == native_geometry(*grid, *sps),
        r.wf(),
{
    let out_w: usize = grid.output_width as usize;
    let out_h: usize = grid.output_height as usize;
    let (vw, vh): (u32, u32) = sps.visible_size();
    let (tile_w, tile_h): (usize, usize) = if vw != 0 && vh != 0 {
        (vw as usize, vh as usize)
    } else {
        (div_ceil(out_w, grid.cols as usize), div_ceil(out_h, grid.rows as usize))
    };
    let sub_w: usize = sps.chroma.sub_w();
    let sub_h: usize = sps.chroma.sub_h();
    let has_chroma: bool = !sps.chroma.is_monochrome();
    let (cw, ch): (usize, usize) = if has_chroma {
        (div_ceil(out_w, sub_w), div_ceil(out_h, sub_h))
    } else {
        (0, 0)
    };
    GridGeometry {
        cols: grid.cols as usize,
        out_w,
        out_h,
        cw,
        ch,
        tile_w,
        tile_h,
        tile_cw: div_ceil(tile_w, sub_w),
        tile_ch: div_ceil(tile_h, sub_h),
        tile_crop_left: sps.crop_left as usize,
        tile_crop_top: sps.crop_top as usize,
        sub_w,
        sub_h,
        has_chroma,
    }
}

/// What is known of a grid of planes before its tiles are decoded.
pub struct NativePlan {
    /// Configuration record of tiles without one of their own.
    pub fallback: Vec<u8>,
    pub sps: Sps,
    pub geo: GridGeometry,
}

/// `r` is what can be said of a grid of planes before its tiles are decoded.
pub open spec fn plans_native<C: Codec>(
    codec: &C,
    limits: ParseLimits,
    grid: GridInfo,
    r: Result<NativePlan, DecodeError>,
) -> bool {
    let hvcc = first_hvcc(grid.tiles@, 0);
    match limits.complaint(grid.output_width, grid.output_height) {
        Some(e) => r == Err::<NativePlan, DecodeError>(e),
        None => if grid.tiles@.len() == 0 {
            r == Err::<NativePlan, DecodeError>(DecodeError::Bitstream("grid has no tiles"))
        } else if hvcc.len() == 0 {
            r == Err::<NativePlan, DecodeError>(DecodeError::MissingBox("grid hvcC property"))
        } else {
            exists|ps: Result<(Sps, Pps), DecodeError>|
                {
                    &&& #[trigger] configures(codec, hvcc, ps)
                    &&& match ps {
                        Err(e) => r == Err::<NativePlan, DecodeError>(e),
                        Ok((sps, _)) => if undivided(grid, sps) {
                            r == Err::<NativePlan, DecodeError>(
                                DecodeError::Bitstream("grid has no columns or rows"),
                            )
                        } else {
                            &&& r matches Ok(p)
                            &&& p.fallback@ == hvcc
                            &&& p.sps == sps
                            &&& p.geo == native_geometry(grid, sps)
                        },
                    }
                }
        },
    }
}

/// Finds out how the tiles of a grid of planes lie.
pub fn plan_native_grid<C: Codec>(codec: &C, limits: &ParseLimits, grid: &GridInfo) -> (r: Result<
    NativePlan,
    DecodeError,
>)
    ensures
        plans_native(codec, *limits, *grid, r),
        r matches Ok(p) ==> p.geo.wf(),
{
    match limits.check_image(grid.output_width, grid.output_height) {
        Ok(()) => {},
        Err(e) => return Err(e),
    }
    if grid.tiles.len() == 0 {
        return Err(DecodeError::Bitstream("grid has no tiles"));
    }
    let fallback: Vec<u8> = fallback_hvcc(&grid.tiles);
    if fallback.len() == 0 {
        return Err(DecodeError::MissingBox("grid hvcC property"));
    }
    let ps: Result<(Sps, Pps), DecodeError> = codec.param_sets(fallback.as_slice());
    assert(configures(codec, fallback@, ps));
    let (sps, _pps): (Sps, Pps) = match ps {
        Ok(t) => t,
        Err(e) => return Err(e),
    };
    let (vw, vh): (u32, u32) = sps.visible_size();
    if (vw == 0 || vh == 0) && (grid.cols == 0 || grid.rows == 0) {
        return Err(DecodeError::Bitstream("grid has no columns or rows"));
    }
    let geo: GridGeometry = native_geometry_of(grid, &sps);
    Ok(NativePlan { fallback, sps, geo })
}

/// Decodes a grid into planes.
pub fn decode_native_grid_image<C: Codec>(
    codec: &C,
    limits: &ParseLimits,
    file: &[u8],
    grid: &GridInfo,
) -> (r: Result<NativeGridImage, DecodeError>)
    ensures
        decodes_native_grid(codec, *limits, file@, *grid, r),
        r matches Ok(image) ==> image.planes.wf(),
{
    let plan: NativePlan = match plan_native_grid(codec, limits, grid) {
        Ok(p) => p,
        Err(e) => {
            let r: Result<NativeGridImage, DecodeError> = Err(e);
            proof {
                assert forall|sps: Sps|
                    undivided(*grid, sps) && e == DecodeError::Bitstream(
                        "grid has no columns or rows",
                    ) implies #[trigger] composes_native(codec, file@, *grid, sps, r) by {}
            }
            return r;
        },
    };
    let sps: Sps = plan.sps;
    let ctx: YuvGridCtx<'_> = YuvGridCtx {
        file,
        tiles: grid.tiles.as_slice(),
        fallback_hvcc: plan.fallback.as_slice(),
        geo: plan.geo,
    };
    let rows: usize = grid.rows as usize;
    let bit_depth: BitDepth = sps.depth();
    let planes: Result<YuvBuffer, DecodeError> = if bit_depth == BitDepth::Eight {
        let p: Result<PlanarImage<u8>, DecodeError> = fill_native_grid_yuv(codec, rows, &ctx);
        assert(ctx@.composes(codec, rows as int, p));
        match p {
            Ok(image) => Ok(YuvBuffer::U8(image)),
            Err(e) => Err(e),
        }
    } else {
        let p: Result<PlanarImage<u16>, DecodeError> = fill_native_grid_yuv(codec, rows, &ctx);
        assert(ctx@.composes(codec, rows as int, p));
        match p {
            Ok(image) => Ok(YuvBuffer::U16(image)),
            Err(e) => Err(e),
        }
    };
    let r: Result<NativeGridImage, DecodeError> = match planes {
        Ok(planes) => Ok(
            NativeGridImage { planes, bit_depth, chroma: sps.chroma, vui_color: sps.vui_color() },
        ),
        Err(e) => Err(e),
    };
    assert(composes_native(codec, file@, *grid, sps, r));
    r
}

/// A grid image has the announced size, within the limits. None of its planes is padded, and it has
/// chroma planes unless its tiles are monochrome.
pub proof fn grid_images_are_tight<C: Codec>(
    codec: &C,
    limits: ParseLimits,
    file: Seq<u8>,
    grid: GridInfo,
    image: NativeGridImage,
)
    requires
        decodes_native_grid(codec, limits, file, grid, Ok(image)),
    ensures
        limits.complaint(grid.output_width, grid.output_height) is None,
        image.planes.is_tight(),
        image.planes.luma_layout().width == grid.output_width,
        image.planes.luma_layout().height == grid.output_height,
        if image.chroma is Monochrome {
            image.planes.is_grey()
        } else {
            image.planes.has_color()
        },
{
    let hvcc = first_hvcc(grid.tiles@, 0);
    let ps = choose|ps: Result<(Sps, Pps), DecodeError>|
        {
            &&& #[trigger] configures(codec, hvcc, ps)
            &&& match ps {
                Err(e) => false,
                Ok((sps, _)) => composes_native(codec, file, grid, sps, Ok(image)),
            }
        };
    let sps = ps->Ok_0.0;
    assert(composes_native(codec, file, grid, sps, Ok(image)));
}

/// Band or column `k` of a grid has the rows or columns from `k * step` on, up to the next one or
/// the end of the picture.
pub proof fn bands_reach_to_the_next(total: int, step: int, k: int, i: int)
    requires
        0 <= total,
        0 <= step,
        0 <= i,
    ensures
        i < band_extent(total, step, k) <==> i < step && k * step + i < total,
{
}

/// Where a position of a tile lies in its plane: as far behind the start of the visible part, or at
/// the border of the plane if that is nearer.
pub open spec fn shown_at(start: int, i: int, size: int) -> int {
    if start + i < size {
        start + i
    } else {
        size - 1
    }
}

/// A tile fills its column of a band: luma sample `(x, y)` of the band shows the sample of the tile
/// as far from the tile's visible corner as it is from column `col * tile_w`. The rest of the band
/// stays.
pub proof fn tiles_fill_their_column<T: Sample>(
    geo: GridGeometry,
    k: int,
    col: int,
    p: NativePlanes<T>,
    bands: Bands<T>,
    x: int,
    y: int,
)
    requires
        0 < p.width,
        0 < p.height,
        p.width * p.height <= p.y@.len(),
        geo.tile_crop_left < p.width,
        geo.tile_crop_top < p.height,
        0 < geo.tile_w,
        0 < geo.tile_h,
        0 <= x < geo.out_w,
        0 <= y,
        y * geo.out_w + x < bands.y.len(),
    ensures
        geo.place(k, col, p, bands).y.len() == bands.y.len(),
        geo.place(k, col, p, bands).y[y * geo.out_w + x] == (if col * geo.tile_w <= x < col
            * geo.tile_w + geo.tile_w && y < geo.tile_h && k * geo.tile_h + y < geo.out_h {
            p.y@[shown_at(geo.tile_crop_top as int, y, p.height as int) * p.width + shown_at(
                geo.tile_crop_left as int,
                x - col * geo.tile_w,
                p.width as int,
            )]
        } else {
            bands.y[y * geo.out_w + x]
        }),
{
    let src = TileSource {
        plane: p.y@,
        usable: p.y@.len() as int,
        pw: p.width as int,
        ph: p.height as int,
        left: geo.tile_crop_left as int,
        top: geo.tile_crop_top as int,
    };
    let w = band_extent(geo.out_w as int, geo.tile_w as int, col);
    let h = band_extent(geo.out_h as int, geo.tile_h as int, k);
    let dx = x - col * geo.tile_w;
    tiles_are_placed_side_by_side(
        bands.y,
        geo.out_w as int,
        col * geo.tile_w,
        w,
        h,
        src,
        x,
        y,
    );
    if dx >= 0 {
        tiles_show_their_plane(
            src,
            dx,
            y,
            shown_at(src.left, dx, src.pw),
            shown_at(src.top, y, src.ph),
        );
    }
}

/// The chroma planes of a tile fill their column of a band in the same way, in the steps of the
/// chroma format.
pub proof fn chroma_tiles_fill_their_column<T: Sample>(
    geo: GridGeometry,
    k: int,
    col: int,
    p: NativePlanes<T>,
    bands: Bands<T>,
    pw: int,
    ph: int,
    left: int,
    top: int,
    x: int,
    y: int,
)
    requires
        geo.wf(),
        geo.has_chroma,
        0 < p.width,
        0 < p.height,
        pw == ceil_div(p.width as int, geo.sub_w as int),
        ph == ceil_div(p.height as int, geo.sub_h as int),
        floor_over(left, geo.tile_crop_left as int, geo.sub_w as int),
        floor_over(top, geo.tile_crop_top as int, geo.sub_h as int),
        0 < pw * ph <= p.cb@.len(),
        pw * ph <= p.cr@.len(),
        0 <= left < pw,
        0 <= top < ph,
        band_extent(geo.out_w as int, geo.tile_w as int, col) > 0,
        band_extent(geo.out_h as int, geo.tile_h as int, k) > 0,
        0 < geo.tile_cw,
        0 < geo.tile_ch,
        0 <= x < geo.cw,
        0 <= y,
        y * geo.cw + x < bands.cb.len(),
        bands.cr.len() == bands.cb.len(),
    ensures
        ({
            let out = geo.place(k, col, p, bands);
            let i = y * geo.cw + x;
            let j = shown_at(top, y, ph) * pw + shown_at(left, x - col * geo.tile_cw, pw);
            &&& out.cb.len() == bands.cb.len()
            &&& out.cr.len() == bands.cr.len()
            &&& if col * geo.tile_cw <= x < col * geo.tile_cw + geo.tile_cw && y < geo.tile_ch && k
                * geo.tile_ch + y < geo.ch {
                out.cb[i] == p.cb@[j] && out.cr[i] == p.cr@[j]
            } else {
                out.cb[i] == bands.cb[i] && out.cr[i] == bands.cr[i]
            }
        }),
{
    let cb = geo.chroma_source(p, p.cb@);
    let cr = geo.chroma_source(p, p.cr@);
    lemma_floor_is_quotient(left, geo.tile_crop_left as int, geo.sub_w as int);
    lemma_floor_is_quotient(top, geo.tile_crop_top as int, geo.sub_h as int);
    let cw = band_extent(geo.cw as int, geo.tile_cw as int, col);
    let ch = band_extent(geo.ch as int, geo.tile_ch as int, k);
    let dx = x - col * geo.tile_cw;
    let x0 = col * geo.tile_cw;
    tiles_are_placed_side_by_side(bands.cb, geo.cw as int, x0, cw, ch, cb, x, y);
    tiles_are_placed_side_by_side(bands.cr, geo.cw as int, x0, cw, ch, cr, x, y);
    if dx >= 0 {
        tiles_show_their_plane(cb, dx, y, shown_at(left, dx, pw), shown_at(top, y, ph));
        tiles_show_their_plane(cr, dx, y, shown_at(left, dx, pw), shown_at(top, y, ph));
    }
}

proof fn lemma_floor_is_quotient(q: int, a: int, b: int)
    requires
        b > 0,
        floor_over(q, a, b),
    ensures
        a / b == q,
{
    assert(a == b * q + (a - q * b)) by (nonlinear_arith);
    assert(0 <= a - q * b < b) by (nonlinear_arith)
        requires
            q * b <= a < (q + 1) * b,
    ;
    vstd::arithmetic::div_mod::lemma_fundamental_div_mod_converse(a, b, q, a - q * b);
}

/// Row `y` of a band is row `k * tile_h + y` of the picture, both when a band is taken out and when
/// it is put back; putting it back leaves the other rows alone.
pub proof fn bands_keep_their_rows<T: Sample>(
    geo: GridGeometry,
    k: int,
    planes: Bands<T>,
    part: Bands<T>,
    x: int,
    y: int,
)
    requires
        0 <= k,
        0 <= x < geo.out_w,
        0 <= y < geo.out_h,
        planes.y.len() == geo.out_w * geo.out_h,
        part.y.len() == band_extent(geo.out_h as int, geo.tile_h as int, k) * geo.out_w,
        k * geo.tile_h < geo.out_h,
    ensures
        ({
            let first = k * geo.tile_h;
            let i = y * geo.out_w + x;
            let j = (y - first) * geo.out_w + x;
            let inside = first <= y < first + geo.tile_h;
            &&& inside ==> geo.cut(k, planes).y[j] == planes.y[i]
            &&& inside ==> geo.merge(k, planes, part).y[i] == part.y[j]
            &&& !inside ==> geo.merge(k, planes, part).y[i] == planes.y[i]
            &&& geo.merge(k, planes, part).y.len() == planes.y.len()
        }),
{
    let (first, w) = (k * geo.tile_h, geo.out_w as int);
    let n = band_extent(geo.out_h as int, geo.tile_h as int, k);
    lemma_part_of_rows(first, n, geo.out_h as int, w, x, y);
    assert(geo.out_w * geo.out_h == geo.out_h * w) by (nonlinear_arith)
        requires
            w == geo.out_w,
    ;
    assert(geo.luma_band(k) == (first * w, n * w));
}

proof fn lemma_part_of_rows(first: int, n: int, rows: int, w: int, x: int, y: int)
    requires
        0 <= first,
        0 <= n,
        first + n <= rows,
        0 <= x < w,
        0 <= y < rows,
    ensures
        0 <= first * w,
        first * w + n * w <= rows * w,
        y * w + x < rows * w,
        0 <= y * w + x,
        first <= y < first + n <==> first * w <= y * w + x < first * w + n * w,
        (y - first) * w + x == y * w + x - first * w,
{
    assert(0 <= first * w && first * w + n * w <= rows * w) by (nonlinear_arith)
        requires
            0 <= first,
            0 <= n,
            0 <= w,
            first + n <= rows,
    ;
    assert((y - first) * w + x == y * w + x - first * w) by (nonlinear_arith);
    assert(first <= y < first + n <==> first * w <= y * w + x < first * w + n * w)
        by (nonlinear_arith)
        requires
            0 <= x < w,
    ;
    assert(0 <= y * w + x < rows * w) by (nonlinear_arith)
        requires
            0 <= x < w,
            0 <= y < rows,
    ;
}

/// The tiles of a band are those of its row of the grid, from left to right.
pub proof fn tiles_are_taken_in_rows<C: Codec, T: GridSample>(
    grid: Grid,
    codec: &C,
    k: int,
    col: int,
    bands: Bands<T>,
    r: Result<Bands<T>, DecodeError>,
)
    requires
        grid.stitches(codec, k, col, bands, r),
    ensures
        col < grid.geo.cols && k * grid.geo.cols + col < grid.tiles.len() ==> exists|
            d: Result<Option<(NativeYuvPlanes, Cicp)>, DecodeError>,
        |
            {
                &&& #[trigger] tile_picture(
                    codec,
                    grid.file,
                    grid.tiles[k * grid.geo.cols + col],
                    grid.fallback,
                    d,
                )
                &&& d matches Ok(p) ==> grid.stitches(
                    codec,
                    k,
                    col + 1,
                    grid.with_tile(k, col, p, bands),
                    r,
                )
            },
        col >= grid.geo.cols ==> r == Ok::<Bands<T>, DecodeError>(bands),
{
}

/// A tile without a configuration of its own has that of the first tile that has one, and a tile
/// that does not lie in the file is left blank.
pub proof fn tiles_share_a_configuration<C: Codec>(
    codec: &C,
    file: Seq<u8>,
    tile: HeifItem,
    fallback: Seq<u8>,
    r: Result<Option<(NativeYuvPlanes, Cicp)>, DecodeError>,
    tiles: Seq<HeifItem>,
    j: int,
    k: int,
)
    requires
        0 <= j <= k < tiles.len(),
        tiles[k].hvcc@.len() > 0,
        forall|i: int| 0 <= i < k ==> (#[trigger] tiles[i]).hvcc@.len() == 0,
    ensures
        tile.hvcc@.len() > 0 ==> tile_hvcc(tile, fallback) == tile.hvcc@,
        tile.hvcc@.len() == 0 ==> tile_hvcc(tile, fallback) == fallback,
        first_hvcc(tiles, j) == tiles[k].hvcc@,
        tile_picture(codec, file, tile, fallback, r) && tile.data_offset + tile.data_length
            > file.len() ==> r == Ok::<Option<(NativeYuvPlanes, Cicp)>, DecodeError>(None),
    decreases k - j,
{
    if j < k {
        assert(tiles[j].hvcc@.len() == 0);
        tiles_share_a_configuration(codec, file, tile, fallback, r, tiles, j + 1, k);
    }
}

/// Tiles have the visible size of their pictures, or else that of an even division of the grid.
/// Chroma sizes are the luma sizes over the steps of the format, rounded up.
pub proof fn grid_geometry_follows_the_pictures(grid: GridInfo, sps: Sps)
    requires
        grid.cols > 0,
        grid.rows > 0,
    ensures
        ({
            let g = native_geometry(grid, sps);
            let (vw, vh) = sps.visible();
            &&& g.cols == grid.cols
            &&& g.out_w == grid.output_width
            &&& g.out_h == grid.output_height
            &&& g.tile_crop_left == sps.crop_left
            &&& g.tile_crop_top == sps.crop_top
            &&& vw > 0 && vh > 0 ==> g.tile_w == vw && g.tile_h == vh
            &&& vw == 0 || vh == 0 ==> {
                &&& grid.cols * g.tile_w >= grid.output_width
                &&& grid.cols * (g.tile_w - 1) < grid.output_width || g.tile_w == 0
                &&& grid.rows * g.tile_h >= grid.output_height
                &&& grid.rows * (g.tile_h - 1) < grid.output_height || g.tile_h == 0
            }
            &&& g.has_chroma == !(sps.chroma is Monochrome)
            &&& sps.chroma is Monochrome ==> g.cw == 0 && g.ch == 0
            &&& sps.chroma is Yuv420 ==> {
                &&& g.sub_w == 2 && g.sub_h == 2
                &&& g.cw == (g.out_w + 1) / 2 && g.ch == (g.out_h + 1) / 2
                &&& g.tile_cw == (g.tile_w + 1) / 2 && g.tile_ch == (g.tile_h + 1) / 2
            }
            &&& sps.chroma is Yuv422 ==> {
                &&& g.sub_w == 2 && g.sub_h == 1
                &&& g.cw == (g.out_w + 1) / 2 && g.ch == g.out_h
                &&& g.tile_cw == (g.tile_w + 1) / 2 && g.tile_ch == g.tile_h
            }
            &&& sps.chroma is Yuv444 ==> {
                &&& g.sub_w == 1 && g.sub_h == 1
                &&& g.cw == g.out_w && g.ch == g.out_h
                &&& g.tile_cw == g.tile_w && g.tile_ch == g.tile_h
            }
        }),
{
    let (w, h) = (grid.output_width as int, grid.output_height as int);
    let (c, r) = (grid.cols as int, grid.rows as int);
    rounding_up_is_enough(w, c);
    rounding_up_is_enough(h, r);
    lemma_ceil_div_small(w, c);
    lemma_ceil_div_small(h, r);
    let g = native_geometry(grid, sps);
    let (vw, vh) = sps.visible();
    let (tw, th) = if vw != 0 && vh != 0 {
        (vw, vh)
    } else {
        (ceil_div(w, c), ceil_div(h, r))
    };
    assert(0 <= tw <= u32::MAX && 0 <= th <= u32::MAX);
    assert(g.tile_w == tw && g.tile_h == th);
    lemma_ceil_div_steps(tw);
    lemma_ceil_div_steps(th);
    lemma_ceil_div_steps(w);
    lemma_ceil_div_steps(h);
    if vw == 0 || vh == 0 {
        assert(c * tw >= w && r * th >= h);
        assert(c * (tw - 1) < w || tw == 0);
        assert(r * (th - 1) < h || th == 0);
    }
}

proof fn lemma_ceil_div_steps(a: int)
    ensures
        ceil_div(a, 1) == a,
        ceil_div(a, 2) == (a + 1) / 2,
{
}

proof fn lemma_ceil_div_small(a: int, b: int)
    requires
        0 <= a,
        0 < b,
    ensures
        0 <= ceil_div(a, b) <= a,
{
    let q = ceil_div(a, b);
    vstd::arithmetic::div_mod::lemma_fundamental_div_mod(a + b - 1, b);
    let r = (a + b - 1) % b;
    assert(0 <= q <= a) by (nonlinear_arith)
        requires
            a + b - 1 == b * q + r,
            0 <= r < b,
            a >= 0,
            b > 0,
    ;
}

/// A grid without a size to divide it by is refused, and only such a one.
pub proof fn undivided_grids_have_no_tile_size(grid: GridInfo, sps: Sps)
    ensures
        undivided(grid, sps) <==> (sps.visible().0 == 0 || sps.visible().1 == 0) && (grid.cols == 0
            || grid.rows == 0),
{
}

/// A grid starts out blank, in the sizes of its planes.
pub proof fn grids_start_out_blank(geo: GridGeometry, i: int)
    requires
        0 <= i,
    ensures
        geo.blank::<u8>().y.len() == geo.out_w * geo.out_h,
        geo.blank::<u8>().cb.len() == geo.cw * geo.ch,
        geo.blank::<u8>().cr.len() == geo.cw * geo.ch,
        i < geo.out_w * geo.out_h ==> geo.blank::<u8>().y[i] == 0 && geo.blank::<u16>().y[i] == 0,
        i < geo.cw * geo.ch ==> geo.blank::<u8>().cb[i] == 0 && geo.blank::<u16>().cr[i] == 0,
{
}

/// Row `y` of a chroma band is row `k * tile_ch + y` of the chroma planes.
pub proof fn chroma_bands_keep_their_rows<T: Sample>(
    geo: GridGeometry,
    k: int,
    planes: Bands<T>,
    part: Bands<T>,
    x: int,
    y: int,
)
    requires
        0 <= k,
        0 <= x < geo.cw,
        0 <= y < geo.ch,
        planes.cb.len() == geo.cw * geo.ch,
        planes.cr.len() == geo.cw * geo.ch,
        part.cb.len() == band_extent(geo.ch as int, geo.tile_ch as int, k) * geo.cw,
        part.cr.len() == band_extent(geo.ch as int, geo.tile_ch as int, k) * geo.cw,
        k * geo.tile_ch < geo.ch,
        0 < geo.tile_ch,
    ensures
        ({
            let first = k * geo.tile_ch;
            let i = y * geo.cw + x;
            let j = (y - first) * geo.cw + x;
            let inside = first <= y < first + geo.tile_ch;
            let cut = geo.cut(k, planes);
            let out = geo.merge(k, planes, part);
            &&& inside ==> cut.cb[j] == planes.cb[i] && cut.cr[j] == planes.cr[i]
            &&& inside ==> out.cb[i] == part.cb[j] && out.cr[i] == part.cr[j]
            &&& !inside ==> out.cb[i] == planes.cb[i] && out.cr[i] == planes.cr[i]
            &&& out.cb.len() == planes.cb.len()
            &&& out.cr.len() == planes.cr.len()
        }),
{
    let (first, w) = (k * geo.tile_ch, geo.cw as int);
    let n = band_extent(geo.ch as int, geo.tile_ch as int, k);
    lemma_part_of_rows(first, n, geo.ch as int, w, x, y);
    assert(geo.cw * geo.ch == geo.ch * w) by (nonlinear_arith)
        requires
            w == geo.cw,
    ;
    assert(n * w > 0) by (nonlinear_arith)
        requires
            n > 0,
            w > 0,
    ;
    assert(geo.chroma_band(k) == (first * w, n * w));
}

/// A grid is filled band by band from the top; bands below the picture are passed over.
pub proof fn grids_are_filled_from_the_top<C: Codec, T: GridSample>(
    grid: Grid,
    codec: &C,
    rows: int,
    k: int,
    planes: Bands<T>,
    r: Result<Bands<T>, DecodeError>,
)
    requires
        grid.fills(codec, rows, k, planes, r),
    ensures
        k >= rows ==> r == Ok::<Bands<T>, DecodeError>(planes),
        k < rows && band_extent(grid.geo.out_h as int, grid.geo.tile_h as int, k) * grid.geo.out_w
            == 0 ==> grid.fills(codec, rows, k + 1, planes, r),
        k < rows && band_extent(grid.geo.out_h as int, grid.geo.tile_h as int, k) * grid.geo.out_w
            > 0 ==> exists|b: Result<Bands<T>, DecodeError>|
            {
                &&& #[trigger] grid.stitches(codec, k, 0, grid.geo.cut(k, planes), b)
                &&& b matches Ok(part) ==> grid.fills(
                    codec,
                    rows,
                    k + 1,
                    grid.geo.merge(k, planes, part),
                    r,
                )
                &&& b matches Err(e) ==> r == Err::<Bands<T>, DecodeError>(e)
            },
{
}

/// A tile of the wrong sample size or without a picture leaves its place blank.
pub proof fn missing_tiles_leave_blanks(
    grid: Grid,
    k: int,
    col: int,
    bands: Bands<u8>,
    wide: NativePlanes<u16>,
    narrow: NativePlanes<u8>,
    color: Cicp,
)
    ensures
        grid.with_tile(k, col, None, bands) == bands,
        grid.with_tile(k, col, Some((NativeYuvPlanes::U16(wide), color)), bands) == bands,
        grid.with_tile(k, col, Some((NativeYuvPlanes::U8(narrow), color)), bands) == grid.geo.place(
            k,
            col,
            narrow,
            bands,
        ),
{
}

/// A grid that is too large, has no tiles or no configuration is refused, in this order.
pub proof fn broken_grids_say_what_is_wrong<C: Codec>(
    codec: &C,
    limits: ParseLimits,
    file: Seq<u8>,
    grid: GridInfo,
    r: Result<NativeGridImage, DecodeError>,
)
    requires
        decodes_native_grid(codec, limits, file, grid, r),
    ensures
        limits.complaint(grid.output_width, grid.output_height) matches Some(e) ==> r == Err::<
            NativeGridImage,
            DecodeError,
        >(e),
        limits.complaint(grid.output_width, grid.output_height) is None && grid.tiles@.len() == 0
            ==> r == Err::<NativeGridImage, DecodeError>(
            DecodeError::Bitstream("grid has no tiles"),
        ),
        limits.complaint(grid.output_width, grid.output_height) is None && grid.tiles@.len() > 0
            && first_hvcc(grid.tiles@, 0).len() == 0 ==> r == Err::<NativeGridImage, DecodeError>(
            DecodeError::MissingBox("grid hvcC property"),
        ),
{
}

} // verus!
