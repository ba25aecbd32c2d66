//! Images made of tiles: interleaved pixels.
use vstd::prelude::*;
use vstd::slice::slice_subrange;
use crate::arith::lemma_row_major;
use crate::codec::{decode_hevc_item, decodes_wide, Codec};
use crate::color::Cicp;
use crate::error::DecodeError;
use crate::formats::{ImageBuffer, Pixels};
use crate::grid::{
    band_extent, band_extent_of, bands_partition_the_picture, optional, optional_auxiliary,
    tile_hvcc, tile_index, with_part,
};
use crate::heif::HeifItem;
use crate::sample::{no_memory, try_vec, Sample};
use crate::stitch::{place_plane, placed, tiles_are_placed_side_by_side, TileSource};
use crate::yuv::YuvPlanes;

verus! {

/// `r` is what converting a window of a picture gives.
pub open spec fn converts<C: Codec>(
    codec: &C,
    planes: YuvPlanes,
    width: usize,
    height: usize,
    left: usize,
    top: usize,
    color: Cicp,
    parallel: bool,
    r: Result<ImageBuffer, DecodeError>,
) -> bool {
    call_ensures(C::to_rgb, (codec, &planes, width, height, left, top, &color, parallel), r)
}

/// A sample type of interleaved pixels.
pub trait PixelSample: Sample {
    /// The samples of an image, if they have this type.
    spec fn picked(pixels: Pixels) -> Option<Seq<Self>>;

    /// An image with the given samples.
    spec fn wrapped(samples: Seq<Self>, mono: bool) -> Pixels;

    fn pick(pixels: &ImageBuffer) -> (r: Option<&Vec<Self>>)
        ensures
            match r {
                Some(v) => Self::picked(pixels@) == Some(v@),
                None => Self::picked(pixels@) is None,
            },
    ;

    fn wrap(samples: Vec<Self>, mono: bool) -> (r: ImageBuffer)
        ensures
            r@ == Self::wrapped(samples@, mono),
    ;
}

impl PixelSample for u8 {
    open spec fn picked(pixels: Pixels) -> Option<Seq<Self>> {
        match pixels {
            Pixels::Luma8(s) | Pixels::Rgb8(s) => Some(s),
            _ => None,
        }
    }

    open spec fn wrapped(samples: Seq<Self>, mono: bool) -> Pixels {
        if mono {
            Pixels::Luma8(samples)
        } else {
            Pixels::Rgb8(samples)
        }
    }

    fn pick(pixels: &ImageBuffer) -> Option<&Vec<Self>> {
        match pixels {
            ImageBuffer::Luma8(s) => Some(s),
            ImageBuffer::Rgb8(s) => Some(s),
            _ => None,
        }
    }

    fn wrap(samples: Vec<Self>, mono: bool) -> ImageBuffer {
        if mono {
            ImageBuffer::Luma8(samples)
        } else {
            ImageBuffer::Rgb8(samples)
        }
    }
}

impl PixelSample for u16 {
    open spec fn picked(pixels: Pixels) -> Option<Seq<Self>> {
        match pixels {
            Pixels::Luma16(s) | Pixels::Rgb16(s) => Some(s),
            _ => None,
        }
    }

    open spec fn wrapped(samples: Seq<Self>, mono: bool) -> Pixels {
        if mono {
            Pixels::Luma16(samples)
        } else {
            Pixels::Rgb16(samples)
        }
    }

    fn pick(pixels: &ImageBuffer) -> Option<&Vec<Self>> {
        match pixels {
            ImageBuffer::Luma16(s) => Some(s),
            ImageBuffer::Rgb16(s) => Some(s),
            _ => None,
        }
    }

    fn wrap(samples: Vec<Self>, mono: bool) -> ImageBuffer {
        if mono {
            ImageBuffer::Luma16(samples)
        } else {
            ImageBuffer::Rgb16(samples)
        }
    }
}

/// How the tiles of a grid lie in an image of interleaved pixels.
#[derive(Clone, Copy, Debug)]
pub struct PixelGeometry {
    pub cols: usize,
    pub out_w: usize,
    pub out_h: usize,
    pub tile_w: usize,
    pub tile_h: usize,
    pub tile_crop_left: usize,
    pub tile_crop_top: usize,
    /// Samples per pixel.
    pub channels: usize,
}

/// What all bands of a grid share.
pub struct GridCtx<'a> {
    pub file: &'a [u8],
    pub tiles: &'a [HeifItem],
    /// Configuration record of tiles without one of their own.
    pub fallback_hvcc: &'a [u8],
    pub color_enc: Cicp,
    pub geo: PixelGeometry,
}

/// What a grid is made of.
pub struct PixelGrid {
    pub file: Seq<u8>,
    pub tiles: Seq<HeifItem>,
    pub fallback: Seq<u8>,
    pub color: Cicp,
    pub geo: PixelGeometry,
}

impl<'a> View for GridCtx<'a> {
    type V = PixelGrid;

    open spec fn view(&self) -> PixelGrid {
        PixelGrid {
            file: self.file@,
            tiles: self.tiles@,
            fallback: self.fallback_hvcc@,
            color: self.color_enc,
            geo: self.geo,
        }
    }
}

impl PixelGeometry {
    /// There are samples, the rows of the output and of a tile can be numbered, and so can the
    /// whole output.
    pub open spec fn wf(self) -> bool {
        &&& 0 < self.channels
        &&& 0 < self.out_w
        &&& 0 < self.tile_w
        &&& 0 < self.tile_h
        &&& self.tile_w * self.channels <= usize::MAX
        &&& self.out_w * self.channels * self.out_h <= usize::MAX
        &&& self.out_w * self.channels <= usize::MAX
    }

    /// An output in which nothing has been placed.
    pub open spec fn blank<T: Sample>(self) -> Seq<T> {
        Seq::new((self.pitch() * self.out_h) as nat, |i: int| T::of_zero())
    }

    /// Samples per row of the output.
    pub open spec fn pitch(self) -> int {
        self.out_w * self.channels
    }

    /// Columns of the tile in column `col` that lie in the output.
    pub open spec fn width_at(self, col: int) -> int {
        band_extent(self.out_w as int, self.tile_w as int, col)
    }

    /// Rows of band `k` that lie in the output.
    pub open spec fn height_at(self, k: int) -> int {
        band_extent(self.out_h as int, self.tile_h as int, k)
    }

    /// Something of the tile in column `col` of band `k` lies in the output.
    pub open spec fn shows(self, k: int, col: int) -> bool {
        self.width_at(col) > 0 && self.height_at(k) > 0
    }

    /// The converted tile has all samples that are shown of it.
    pub open spec fn covers(self, k: int, col: int, len: int) -> bool {
        ((self.height_at(k) - 1) * self.tile_w + self.width_at(col)) * self.channels <= len
    }

    /// The band with a converted tile placed in column `col`.
    pub open spec fn place<T: Sample>(self, k: int, col: int, tile: Seq<T>, band: Seq<T>) -> Seq<T> {
        placed(
            band,
            self.pitch(),
            col * self.tile_w * self.channels,
            self.width_at(col) * self.channels,
            self.height_at(k),
            TileSource {
                plane: tile,
                usable: tile.len() as int,
                pw: self.tile_w * self.channels,
                ph: self.tile_h as int,
                left: 0,
                top: 0,
            },
        )
    }
}

/// A placed tile shows its own samples, row by row.
pub proof fn placed_tile_shows_its_samples<T: Sample>(
    geo: PixelGeometry,
    k: int,
    col: int,
    tile: Seq<T>,
    band: Seq<T>,
    x: int,
    y: int,
)
    requires
        geo.wf(),
        0 <= k,
        0 <= col,
        geo.covers(k, col, tile.len() as int),
        geo.height_at(k) * geo.pitch() <= band.len(),
        0 <= x < geo.width_at(col) * geo.channels,
        0 <= y < geo.height_at(k),
    ensures
        ({
            let i = y * geo.pitch() + col * geo.tile_w * geo.channels + x;
            &&& 0 <= i < band.len()
            &&& geo.place(k, col, tile, band)[i] == tile[y * (geo.tile_w * geo.channels) + x]
        }),
{
    let c = geo.channels as int;
    let pitch = geo.pitch();
    let w = geo.width_at(col);
    let h = geo.height_at(k);
    let pw = geo.tile_w * c;
    let x0 = col * geo.tile_w * c;
    lemma_columns(geo, col);
    assert(w > 0) by (nonlinear_arith)
        requires
            0 < w * c,
            0 <= c,
    ;
    lemma_row_major(y, x0 + x, pitch, h);
    assert(0 <= y * pitch) by (nonlinear_arith)
        requires
            y >= 0,
            pitch >= 0,
    ;
    assert(h <= geo.tile_h);
    assert(((h - 1) * geo.tile_w + w) * c == (h - 1) * pw + w * c) by (nonlinear_arith)
        requires
            pw == geo.tile_w * c,
    ;
    assert(y * pw <= (h - 1) * pw) by (nonlinear_arith)
        requires
            y <= h - 1,
            pw >= 0,
    ;
    assert(w * c <= pw) by (nonlinear_arith)
        requires
            w <= geo.tile_w,
            c >= 0,
            pw == geo.tile_w * c,
    ;
    assert(0 <= y * pw) by (nonlinear_arith)
        requires
            y >= 0,
            pw >= 0,
    ;
}

/// Columns of a tile lie in the output.
proof fn lemma_columns(geo: PixelGeometry, col: int)
    requires
        geo.wf(),
        0 <= col,
    ensures
        0 <= geo.width_at(col) <= geo.tile_w,
        geo.width_at(col) > 0 ==> {
            &&& 0 <= col * geo.tile_w
            &&& 0 <= col * geo.tile_w * geo.channels
            &&& col * geo.tile_w * geo.channels + geo.width_at(col) * geo.channels <= geo.pitch()
        },
{
    let c = geo.channels as int;
    let s = col * geo.tile_w;
    let w = geo.width_at(col);
    assert(0 <= s) by (nonlinear_arith)
        requires
            0 <= col,
            0 <= geo.tile_w,
            s == col * geo.tile_w,
    ;
    if w > 0 {
        assert(0 <= s * c && s * c + w * c <= geo.out_w * c) by (nonlinear_arith)
            requires
                0 <= s,
                s + w <= geo.out_w,
                0 <= c,
        ;
    }
}

/// What a buffer holds, or the error in its place.
pub open spec fn contents<T>(r: Result<Vec<T>, DecodeError>) -> Result<Seq<T>, DecodeError> {
    match r {
        Ok(v) => Ok(v@),
        Err(e) => Err(e),
    }
}

impl PixelGrid {
    /// `r` is the converted tile number `idx`, if there is one. Tiles that are not shown are not
    /// converted.
    pub open spec fn converts_tile<C: Codec>(
        self,
        codec: &C,
        idx: int,
        shown: bool,
        r: Result<Option<ImageBuffer>, DecodeError>,
    ) -> bool {
        let tile = self.tiles[idx];
        let hvcc = tile_hvcc(tile, self.fallback);
        if !tile.in_file(self.file.len() as int) || hvcc.len() == 0 {
            r == Ok::<Option<ImageBuffer>, DecodeError>(None)
        } else {
            exists|d: Result<(YuvPlanes, Cicp), DecodeError>|
                {
                    &&& #[trigger] decodes_wide(codec, tile.data(self.file), hvcc, false, d)
                    &&& match optional(d) {
                        Err(e) => r == Err::<Option<ImageBuffer>, DecodeError>(e),
                        Ok(None) => r == Ok::<Option<ImageBuffer>, DecodeError>(None),
                        Ok(Some((planes, _))) => if !shown {
                            r == Ok::<Option<ImageBuffer>, DecodeError>(None)
                        } else {
                            exists|t: Result<ImageBuffer, DecodeError>|
                                {
                                    &&& #[trigger] converts(
                                        codec,
                                        planes,
                                        self.geo.tile_w,
                                        self.geo.tile_h,
                                        self.geo.tile_crop_left,
                                        self.geo.tile_crop_top,
                                        self.color,
                                        false,
                                        t,
                                    )
                                    &&& r == match t {
                                        Ok(b) => Ok::<Option<ImageBuffer>, DecodeError>(Some(b)),
                                        Err(e) => Err(e),
                                    }
                                }
                        },
                    }
                }
        }
    }

    /// `r` is what placing the tiles of band `k` gives, from column `col` on.
    pub open spec fn stitches<C: Codec, T: PixelSample>(
        self,
        codec: &C,
        k: int,
        col: int,
        band: Seq<T>,
        r: Result<Seq<T>, DecodeError>,
    ) -> bool
        decreases self.geo.cols - col,
    {
        let idx = k * self.geo.cols + col;
        if col >= self.geo.cols || idx >= self.tiles.len() {
            r == Ok::<Seq<T>, DecodeError>(band)
        } else {
            exists|d: Result<Option<ImageBuffer>, DecodeError>|
                {
                    &&& #[trigger] self.converts_tile(codec, idx, self.geo.shows(k, col), d)
                    &&& match d {
                        Err(e) => r == Err::<Seq<T>, DecodeError>(e),
                        Ok(p) => match self.with_tile(k, col, p, band) {
                            Err(e) => r == Err::<Seq<T>, DecodeError>(e),
                            Ok(next) => self.stitches(codec, k, col + 1, next, r),
                        },
                    }
                }
        }
    }

    /// The band after a tile that may be missing, or of another sample type.
    pub open spec fn with_tile<T: PixelSample>(
        self,
        k: int,
        col: int,
        p: Option<ImageBuffer>,
        band: Seq<T>,
    ) -> Result<Seq<T>, DecodeError> {
        match p {
            None => Ok(band),
            Some(b) => match T::picked(b@) {
                None => Ok(band),
                Some(tile) => if self.geo.covers(k, col, tile.len() as int) {
                    Ok(self.geo.place(k, col, tile, band))
                } else {
                    Err(DecodeError::Bitstream("converted tile is too small"))
                },
            },
        }
    }

    /// `r` is what filling the bands from number `k` on gives.
    pub open spec fn fills<C: Codec, T: PixelSample>(
        self,
        codec: &C,
        rows: int,
        k: int,
        out: Seq<T>,
        r: Result<Seq<T>, DecodeError>,
    ) -> bool
        decreases rows - k,
    {
        let lo = k * self.geo.tile_h * self.geo.pitch();
        let n = self.geo.height_at(k) * self.geo.pitch();
        if k >= rows {
            r == Ok::<Seq<T>, DecodeError>(out)
        } else if n <= 0 {
            self.fills(codec, rows, k + 1, out, r)
        } else {
            exists|b: Result<Seq<T>, DecodeError>|
                {
                    &&& #[trigger] self.stitches(codec, k, 0, out.subrange(lo, lo + n), b)
                    &&& match b {
                        Err(e) => r == Err::<Seq<T>, DecodeError>(e),
                        Ok(part) => self.fills(codec, rows, k + 1, with_part(out, lo, part), r),
                    }
                }
        }
    }

    /// `r` is the pixels that the tiles make.
    pub open spec fn composes<C: Codec, T: PixelSample>(
        self,
        codec: &C,
        rows: int,
        r: Result<Vec<T>, DecodeError>,
    ) -> bool {
        ||| r == Err::<Vec<T>, DecodeError>(
            no_memory::<T>("grid RGB output", self.geo.pitch() * self.geo.out_h),
        )
        ||| self.fills(codec, rows, 0, self.geo.blank::<T>(), contents(r))
    }
}

fn convert_tile<C: Codec>(codec: &C, ctx: &GridCtx<'_>, idx: usize, shown: bool) -> (r: Result<
    Option<ImageBuffer>,
    DecodeError,
>)
    requires
        idx < ctx.tiles@.len(),
    ensures
        ctx@.converts_tile(codec, idx as int, shown, r),
{
    let tile: &HeifItem = &ctx.tiles[idx];
    let (start, end): (usize, usize) = match tile.range_in(ctx.file.len()) {
        Some(t) => t,
        None => return Ok(None),
    };
    let hvcc: &[u8] = if tile.hvcc.len() == 0 {
        ctx.fallback_hvcc
    } else {
        tile.hvcc.as_slice()
    };
    if hvcc.len() == 0 {
        return Ok(None);
    }
    let d: Result<(YuvPlanes, Cicp), DecodeError> = decode_hevc_item(
        codec,
        slice_subrange(ctx.file, start, end),
        hvcc,
        false,
    );
    assert(decodes_wide(
        codec,
        tile.data(ctx@.file),
        tile_hvcc(*tile, ctx@.fallback),
        false,
        d,
    ));
    let planes: YuvPlanes = match optional_auxiliary(d) {
        Ok(Some((p, _))) => p,
        Ok(None) => return Ok(None),
        Err(e) => return Err(e),
    };
    if !shown {
        return Ok(None);
    }
    let t: Result<ImageBuffer, DecodeError> = codec.to_rgb(
        &planes,
        ctx.geo.tile_w,
        ctx.geo.tile_h,
        ctx.geo.tile_crop_left,
        ctx.geo.tile_crop_top,
        &ctx.color_enc,
        false,
    );
    assert(converts(
        codec,
        planes,
        ctx@.geo.tile_w,
        ctx@.geo.tile_h,
        ctx@.geo.tile_crop_left,
        ctx@.geo.tile_crop_top,
        ctx@.color,
        false,
        t,
    ));
    match t {
        Ok(b) => Ok(Some(b)),
        Err(e) => Err(e),
    }
}

/// Places a converted tile into a band.
pub fn place_pixels<T: Sample>(
    geo: &PixelGeometry,
    band_row: usize,
    col: usize,
    tile: &[T],
    band: &mut [T],
) -> (r: Result<(), DecodeError>)
    requires
        geo.wf(),
        geo.height_at(band_row as int) > 0,
        geo.width_at(col as int) > 0,
        geo.height_at(band_row as int) * geo.pitch() <= old(band)@.len(),
    ensures
        if geo.covers(band_row as int, col as int, tile@.len() as int) {
            &&& r is Ok
            &&& final(band)@ == geo.place(band_row as int, col as int, tile@, old(band)@)
        } else {
            &&& r == Err::<(), DecodeError>(DecodeError::Bitstream("converted tile is too small"))
            &&& final(band)@ == old(band)@
        },
{
    let w: usize = band_extent_of(geo.out_w, geo.tile_w, col);
    let h: usize = band_extent_of(geo.out_h, geo.tile_h, band_row);
    let c: usize = geo.channels;
    proof {
        lemma_columns(*geo, col as int);
        assert(w * c <= geo.tile_w * c) by (nonlinear_arith)
            requires
                w <= geo.tile_w,
                c >= 0,
        ;
    }
    let pw: usize = geo.tile_w * c;
    let shown: usize = w * c;
    // The last row that is shown must be complete.
    let tile_len: usize = tile.len();
    let need: Option<usize> = (h - 1).checked_mul(pw);
    let fits: bool = match need {
        Some(n) => n <= tile_len && shown <= tile_len - n,
        None => false,
    };
    proof {
        assert(((h - 1) * geo.tile_w + w) * c == (h - 1) * pw + w * c) by (nonlinear_arith)
            requires
                pw == geo.tile_w * c,
        ;
        assert(w * c >= 0) by (nonlinear_arith)
            requires
                w >= 0,
                c >= 0,
        ;
        assert(pw > 0) by (nonlinear_arith)
            requires
                pw == geo.tile_w * c,
                geo.tile_w > 0,
                c > 0,
        ;
    }
    assert(geo.covers(band_row as int, col as int, tile@.len() as int) == ((h - 1) * pw + w * c
        <= tile@.len()));
    assert(fits == geo.covers(band_row as int, col as int, tile@.len() as int));
    if !fits {
        return Err(DecodeError::Bitstream("converted tile is too small"));
    }
    place_plane(
        band,
        geo.out_w * c,
        col * geo.tile_w * c,
        shown,
        h,
        tile,
        tile.len(),
        pw,
        geo.tile_h,
        0,
        0,
    );
    Ok(())
}

/// Decodes the tiles of a band, converts and places them.
pub fn stitch_grid_band<C: Codec, T: PixelSample>(
    codec: &C,
    ctx: &GridCtx<'_>,
    band_row: usize,
    band: &mut [T],
) -> (r: Result<(), DecodeError>)
    requires
        ctx.geo.wf(),
        ctx.geo.height_at(band_row as int) * ctx.geo.pitch() <= old(band)@.len(),
    ensures
        final(band)@.len() == old(band)@.len(),
        ctx@.stitches(
            codec,
            band_row as int,
            0,
            old(band)@,
            match r {
                Ok(()) => Ok(final(band)@),
                Err(e) => Err(e),
            },
        ),
{
    let ghost start = band@;
    let h: usize = band_extent_of(ctx.geo.out_h, ctx.geo.tile_h, band_row);
    let mut col: usize = 0;
    while col < ctx.geo.cols
        invariant_except_break
            ctx.geo.wf(),
            h == ctx.geo.height_at(band_row as int),
            h * ctx.geo.pitch() <= band@.len(),
            col <= ctx.geo.cols,
            start == old(band)@,
            band@.len() == start.len(),
            forall|r: Result<Seq<T>, DecodeError>|
                ctx@.stitches(codec, band_row as int, col as int, band@, r)
                    ==> #[trigger] ctx@.stitches(codec, band_row as int, 0, start, r),
        ensures
            band@.len() == start.len(),
            ctx@.stitches(codec, band_row as int, 0, start, Ok(band@)),
        decreases ctx.geo.cols - col,
    {
        let ghost before = band@;
        let idx: usize = match tile_index(band_row, ctx.geo.cols, col, ctx.tiles.len()) {
            Some(i) => i,
            None => {
                proof {
                    let out: Result<Seq<T>, DecodeError> = Ok(before);
                    assert(ctx@.stitches(codec, band_row as int, col as int, before, out));
                }
                break;
            },
        };
        let w: usize = band_extent_of(ctx.geo.out_w, ctx.geo.tile_w, col);
        let shown: bool = w > 0 && h > 0;
        let d: Result<Option<ImageBuffer>, DecodeError> = convert_tile(codec, ctx, idx, shown);
        assert(shown == ctx@.geo.shows(band_row as int, col as int));
        assert(ctx@.converts_tile(
            codec,
            idx as int,
            ctx@.geo.shows(band_row as int, col as int),
            d,
        ));
        let p: Option<ImageBuffer> = match d {
            Ok(p) => p,
            Err(e) => {
                proof {
                    let out: Result<Seq<T>, DecodeError> = Err(e);
                    assert(ctx@.stitches(codec, band_row as int, col as int, before, out));
                }
                return Err(e);
            },
        };
        if let Some(buffer) = &p {
            assert(shown);
            if let Some(tile) = T::pick(buffer) {
                match place_pixels(&ctx.geo, band_row, col, tile.as_slice(), band) {
                    Ok(()) => {},
                    Err(e) => {
                        proof {
                            let out: Result<Seq<T>, DecodeError> = Err(e);
                            assert(ctx@.stitches(codec, band_row as int, col as int, before, out));
                        }
                        return Err(e);
                    },
                }
            }
        }
        assert(ctx@.with_tile(band_row as int, col as int, p, before) == Ok::<Seq<T>, DecodeError>(
            band@,
        ));
        proof {
            assert forall|r: Result<Seq<T>, DecodeError>|
                ctx@.stitches(codec, band_row as int, col + 1, band@, r)
                    implies #[trigger] ctx@.stitches(codec, band_row as int, 0, start, r) by {
                assert(ctx@.stitches(codec, band_row as int, col as int, before, r));
            }
        }
        col = col + 1;
        proof {
            if col >= ctx.geo.cols {
                let out: Result<Seq<T>, DecodeError> = Ok(band@);
                assert(ctx@.stitches(codec, band_row as int, col as int, band@, out));
            }
        }
    }
    Ok(())
}

fn stitch_row<C: Codec, T: PixelSample>(codec: &C, ctx: &GridCtx<'_>, row: usize, out: &mut [T]) -> (r:
    Result<(), DecodeError>)
    requires
        ctx.geo.wf(),
        old(out)@.len() == ctx.geo.pitch() * ctx.geo.out_h,
        ctx.geo.height_at(row as int) * ctx.geo.pitch() > 0,
    ensures
        final(out)@.len() == old(out)@.len(),
        ({
            let lo = row * ctx.geo.tile_h * ctx.geo.pitch();
            let n = ctx.geo.height_at(row as int) * ctx.geo.pitch();
            exists|b: Result<Seq<T>, DecodeError>|
                {
                    &&& #[trigger] ctx@.stitches(
                        codec,
                        row as int,
                        0,
                        old(out)@.subrange(lo, lo + n),
                        b,
                    )
                    &&& match b {
                        Err(e) => r == Err::<(), DecodeError>(e),
                        Ok(part) => r is Ok && final(out)@ == with_part(old(out)@, lo, part),
                    }
                }
        }),
{
    let ghost before = out@;
    let out_len: usize = out.len();
    let h: usize = band_extent_of(ctx.geo.out_h, ctx.geo.tile_h, row);
    let pitch: usize = ctx.geo.out_w * ctx.geo.channels;
    proof {
        assert(h > 0) by (nonlinear_arith)
            requires
                h * pitch > 0,
                h >= 0,
        ;
        bands_partition_the_picture(
            ctx.geo.out_h as int,
            ctx.geo.tile_h as int,
            pitch as int,
            row as int,
        );
        assert(ctx.geo.out_h * pitch == pitch * ctx.geo.out_h) by (nonlinear_arith);
        assert(0 <= row * ctx.geo.tile_h) by (nonlinear_arith)
            requires
                row >= 0,
                ctx.geo.tile_h >= 0,
        ;
        assert(0 <= h * pitch) by (nonlinear_arith)
            requires
                h >= 0,
                pitch >= 0,
        ;
    }
    let lo: usize = row * ctx.geo.tile_h * pitch;
    let n: usize = h * pitch;
    let (head, tail) = out.split_at_mut(lo);
    let (band, rest) = tail.split_at_mut(n);
    assert(band@ =~= before.subrange(lo as int, lo + n));
    let r: Result<(), DecodeError> = stitch_grid_band(codec, ctx, row, band);
    let ghost part = band@;
    proof {
        let b: Result<Seq<T>, DecodeError> = match r {
            Ok(()) => Ok(part),
            Err(e) => Err(e),
        };
        assert(ctx@.stitches(codec, row as int, 0, before.subrange(lo as int, lo + n), b));
    }
    assert(out@ =~= with_part(before, lo as int, part));
    r
}

/// Decodes all tiles of a grid into interleaved pixels, given what came of asking for room.
pub fn filled_grid_bands<C: Codec, T: PixelSample>(
    codec: &C,
    rows: usize,
    ctx: &GridCtx<'_>,
    room: Result<Vec<T>, DecodeError>,
) -> (r: Result<Vec<T>, DecodeError>)
    requires
        ctx.geo.wf(),
        room matches Ok(v) ==> v@.len() == ctx.geo.pitch() * ctx.geo.out_h,
    ensures
        match room {
            Err(e) => r == Err::<Vec<T>, DecodeError>(e),
            Ok(v) => ctx@.fills(codec, rows as int, 0, v@, contents(r)),
        },
        r matches Ok(v) ==> v@.len() == ctx.geo.pitch() * ctx.geo.out_h,
{
    let geo: PixelGeometry = ctx.geo;
    let mut out: Vec<T> = match room {
        Ok(v) => v,
        Err(e) => return Err(e),
    };
    let pitch: usize = geo.out_w * geo.channels;
    let total: usize = out.len();
    let ghost start = out@;
    let mut row: usize = 0;
    while row < rows
        invariant
            geo == ctx.geo,
            geo.wf(),
            pitch == geo.pitch(),
            total == pitch * geo.out_h,
            row <= rows,
            out@.len() == total,
            room matches Ok(v) && v@ == start,
            forall|r: Result<Seq<T>, DecodeError>|
                ctx@.fills(codec, rows as int, row as int, out@, r) ==> #[trigger] ctx@.fills(
                    codec,
                    rows as int,
                    0,
                    start,
                    r,
                ),
        decreases rows - row,
    {
        let ghost before = out@;
        let h: usize = band_extent_of(geo.out_h, geo.tile_h, row);
        if h > 0 {
            proof {
                assert(pitch > 0) by (nonlinear_arith)
                    requires
                        pitch == geo.out_w * geo.channels,
                        geo.out_w > 0,
                        geo.channels > 0,
                ;
                assert(h * pitch > 0) by (nonlinear_arith)
                    requires
                        h > 0,
                        pitch > 0,
                ;
            }
            match stitch_row(codec, ctx, row, out.as_mut_slice()) {
                Err(e) => {
                    proof {
                        let o: Result<Seq<T>, DecodeError> = Err(e);
                        assert(ctx@.fills(codec, rows as int, row as int, before, o));
                        assert(ctx@.fills(codec, rows as int, 0, start, o));
                    }
                    return Err(e);
                },
                Ok(()) => {
                    proof {
                        assert forall|r: Result<Seq<T>, DecodeError>|
                            ctx@.fills(codec, rows as int, row + 1, out@, r)
                                implies #[trigger] ctx@.fills(codec, rows as int, 0, start, r) by {
                            assert(ctx@.fills(codec, rows as int, row as int, before, r));
                        }
                    }
                },
            }
        } else {
            proof {
                assert(h * pitch == 0) by (nonlinear_arith)
                    requires
                        h == 0,
                ;
                assert forall|r: Result<Seq<T>, DecodeError>|
                    ctx@.fills(codec, rows as int, row + 1, before, r)
                        implies #[trigger] ctx@.fills(codec, rows as int, 0, start, r) by {
                    assert(ctx@.fills(codec, rows as int, row as int, before, r));
                }
            }
        }
        row = row + 1;
    }
    proof {
        let o: Result<Seq<T>, DecodeError> = Ok(out@);
        assert(ctx@.fills(codec, rows as int, row as int, out@, o));
        assert(ctx@.fills(codec, rows as int, 0, start, o));
    }
    Ok(out)
}

/// Decodes all tiles of a grid into interleaved pixels.
pub fn fill_grid_bands<C: Codec, T: PixelSample>(codec: &C, rows: usize, ctx: &GridCtx<'_>) -> (r: Result<
    Vec<T>,
    DecodeError,
>)
    requires
        ctx.geo.wf(),
    ensures
        ctx@.composes(codec, rows as int, r),
        r matches Ok(v) ==> v@.len() == ctx.geo.pitch() * ctx.geo.out_h,
{
    let geo: PixelGeometry = ctx.geo;
    let pitch: usize = geo.out_w * geo.channels;
    let total: usize = pitch * geo.out_h;
    let room: Result<Vec<T>, DecodeError> = try_vec(T::zero(), total, "grid RGB output");
    assert(room matches Ok(v) ==> v@ =~= geo.blank::<T>());
    filled_grid_bands(codec, rows, ctx, room)
}

proof fn lemma_stitched_len<C: Codec, T: PixelSample>(
    grid: PixelGrid,
    codec: &C,
    k: int,
    col: int,
    band: Seq<T>,
    out: Seq<T>,
)
    requires
        grid.stitches(codec, k, col, band, Ok(out)),
    ensures
        out.len() == band.len(),
    decreases grid.geo.cols - col,
{
    let idx = k * grid.geo.cols + col;
    if col < grid.geo.cols && idx < grid.tiles.len() {
        let d = choose|d: Result<Option<ImageBuffer>, DecodeError>|
            {
                &&& #[trigger] grid.converts_tile(codec, idx, grid.geo.shows(k, col), d)
                &&& match d {
                    Err(e) => false,
                    Ok(p) => match grid.with_tile(k, col, p, band) {
                        Err(e) => false,
                        Ok(next) => grid.stitches(codec, k, col + 1, next, Ok(out)),
                    },
                }
            };
        let next = grid.with_tile(k, col, d->Ok_0, band)->Ok_0;
        lemma_stitched_len(grid, codec, k, col + 1, next, out);
    }
}

proof fn lemma_filled_len<C: Codec, T: PixelSample>(
    grid: PixelGrid,
    codec: &C,
    rows: int,
    k: int,
    before: Seq<T>,
    out: Seq<T>,
)
    requires
        grid.geo.wf(),
        0 <= k,
        before.len() == grid.geo.pitch() * grid.geo.out_h,
        grid.fills(codec, rows, k, before, Ok(out)),
    ensures
        out.len() == before.len(),
    decreases rows - k,
{
    let pitch = grid.geo.pitch();
    let lo = k * grid.geo.tile_h * pitch;
    let n = grid.geo.height_at(k) * pitch;
    if k < rows {
        if n <= 0 {
            lemma_filled_len(grid, codec, rows, k + 1, before, out);
        } else {
            let b = choose|b: Result<Seq<T>, DecodeError>|
                {
                    &&& #[trigger] grid.stitches(codec, k, 0, before.subrange(lo, lo + n), b)
                    &&& match b {
                        Err(e) => false,
                        Ok(part) => grid.fills(
                            codec,
                            rows,
                            k + 1,
                            with_part(before, lo, part),
                            Ok(out),
                        ),
                    }
                };
            let part = b->Ok_0;
            assert(0 < grid.geo.height_at(k)) by (nonlinear_arith)
                requires
                    0 < grid.geo.height_at(k) * pitch,
                    0 <= pitch,
            ;
            bands_partition_the_picture(
                grid.geo.out_h as int,
                grid.geo.tile_h as int,
                pitch,
                k,
            );
            assert(grid.geo.out_h * pitch == pitch * grid.geo.out_h) by (nonlinear_arith);
            lemma_stitched_len(grid, codec, k, 0, before.subrange(lo, lo + n), part);
            lemma_filled_len(grid, codec, rows, k + 1, with_part(before, lo, part), out);
        }
    }
}

/// Tiles fill the output: it has all samples of its size, however large the tiles are.
pub proof fn composed_pixels_are_complete<C: Codec, T: PixelSample>(
    grid: PixelGrid,
    codec: &C,
    rows: int,
    pixels: Vec<T>,
)
    requires
        grid.geo.wf(),
        grid.composes(codec, rows, Ok(pixels)),
    ensures
        pixels@.len() == grid.geo.pitch() * grid.geo.out_h,
{
    assert(0 <= grid.geo.pitch() * grid.geo.out_h) by (nonlinear_arith)
        requires
            0 <= grid.geo.pitch(),
            0 <= grid.geo.out_h,
    ;
    lemma_filled_len(grid, codec, rows, 0, grid.geo.blank::<T>(), pixels@);
}

/// Pixels beside and below a placed tile stay.
pub proof fn placed_tile_leaves_the_rest<T: Sample>(
    geo: PixelGeometry,
    k: int,
    col: int,
    tile: Seq<T>,
    band: Seq<T>,
    x: int,
    y: int,
    c: int,
)
    requires
        geo.wf(),
        0 <= x < geo.out_w,
        0 <= y,
        0 <= c < geo.channels,
        (y * geo.out_w + x) * geo.channels + c < band.len(),
        !(col * geo.tile_w <= x < col * geo.tile_w + geo.tile_w && y < geo.tile_h && k * geo.tile_h
            + y < geo.out_h),
    ensures
        geo.place(k, col, tile, band).len() == band.len(),
        geo.place(k, col, tile, band)[(y * geo.out_w + x) * geo.channels + c] == band[(y * geo.out_w
            + x) * geo.channels + c],
{
    let (ch, tw, ow) = (geo.channels as int, geo.tile_w as int, geo.out_w as int);
    let src = TileSource {
        plane: tile,
        usable: tile.len() as int,
        pw: geo.tile_w * geo.channels,
        ph: geo.tile_h as int,
        left: 0,
        top: 0,
    };
    let px = x * ch + c;
    assert(0 <= px < ow * ch) by (nonlinear_arith)
        requires
            px == x * ch + c,
            0 <= x < ow,
            0 <= c < ch,
    ;
    assert((y * ow + x) * ch + c == y * (ow * ch) + px) by (nonlinear_arith)
        requires
            px == x * ch + c,
    ;
    let w = geo.width_at(col);
    tiles_are_placed_side_by_side(
        band,
        geo.pitch(),
        col * geo.tile_w * geo.channels,
        w * geo.channels,
        geo.height_at(k),
        src,
        px,
        y,
    );
    if y < geo.height_at(k) {
        let x0 = col * tw;
        if x < x0 {
            assert(px < x0 * ch) by (nonlinear_arith)
                requires
                    px == x * ch + c,
                    x + 1 <= x0,
                    c < ch,
                    ch > 0,
            ;
        } else {
            assert(x >= x0 + w);
            assert(px >= x0 * ch + w * ch) by (nonlinear_arith)
                requires
                    px == x * ch + c,
                    x >= x0 + w,
                    c >= 0,
                    ch > 0,
            ;
        }
    }
}

/// The columns of a grid are as wide as a tile and its bands as high, up to the end of the picture.
/// A row of the picture has `channels` samples for each pixel.
pub proof fn pixel_tiles_reach_to_the_next(geo: PixelGeometry, k: int, i: int)
    requires
        0 <= i,
    ensures
        i < geo.width_at(k) <==> i < geo.tile_w && k * geo.tile_w + i < geo.out_w,
        i < geo.height_at(k) <==> i < geo.tile_h && k * geo.tile_h + i < geo.out_h,
        geo.pitch() == geo.out_w * geo.channels,
        geo.blank::<u8>().len() == geo.pitch() * geo.out_h,
        i < geo.pitch() * geo.out_h ==> geo.blank::<u8>()[i] == 0 && geo.blank::<u16>()[i] == 0,
{
}

/// A converted tile must have the last pixel of the part that is shown.
pub proof fn shown_tiles_must_be_complete<T: PixelSample>(
    grid: PixelGrid,
    k: int,
    col: int,
    p: ImageBuffer,
    band: Seq<T>,
    tile: Seq<T>,
)
    requires
        T::picked(p@) == Some(tile),
    ensures
        ({
            let last = ((grid.geo.height_at(k) - 1) * grid.geo.tile_w + grid.geo.width_at(col))
                * grid.geo.channels;
            &&& last <= tile.len() ==> grid.with_tile(k, col, Some(p), band) == Ok::<
                Seq<T>,
                DecodeError,
            >(grid.geo.place(k, col, tile, band))
            &&& last > tile.len() ==> grid.with_tile(k, col, Some(p), band) is Err
        }),
        grid.with_tile(k, col, None, band) == Ok::<Seq<T>, DecodeError>(band),
{
}

/// The tiles of a band are those of its row of the grid, from left to right.
pub proof fn pixel_tiles_are_taken_in_rows<C: Codec, T: PixelSample>(
    grid: PixelGrid,
    codec: &C,
    k: int,
    col: int,
    band: Seq<T>,
    r: Result<Seq<T>, DecodeError>,
    shown: bool,
)
    requires
        grid.stitches(codec, k, col, band, r),
        shown == (grid.geo.width_at(col) > 0 && grid.geo.height_at(k) > 0),
    ensures
        col < grid.geo.cols && k * grid.geo.cols + col < grid.tiles.len() ==> exists|
            d: Result<Option<ImageBuffer>, DecodeError>,
        |
            {
                &&& #[trigger] grid.converts_tile(
                    codec,
                    k * grid.geo.cols + col,
                    shown,
                    d,
                )
                &&& d matches Ok(p) ==> (grid.with_tile(k, col, p, band) matches Ok(next)
                    ==> grid.stitches(codec, k, col + 1, next, r))
            },
        col >= grid.geo.cols ==> r == Ok::<Seq<T>, DecodeError>(band),
{
}

/// Images of 8 bits hold bytes and those of 16 bits words; grey ones are kept apart from colour
/// ones.
pub proof fn pixels_are_kept_by_depth(bytes: Seq<u8>, words: Seq<u16>)
    ensures
        <u8 as PixelSample>::wrapped(bytes, true) == Pixels::Luma8(bytes),
        <u8 as PixelSample>::wrapped(bytes, false) == Pixels::Rgb8(bytes),
        <u16 as PixelSample>::wrapped(words, true) == Pixels::Luma16(words),
        <u16 as PixelSample>::wrapped(words, false) == Pixels::Rgb16(words),
        <u8 as PixelSample>::picked(Pixels::Luma8(bytes)) == Some(bytes),
        <u8 as PixelSample>::picked(Pixels::Rgb8(bytes)) == Some(bytes),
        <u8 as PixelSample>::picked(Pixels::Rgb16(words)) is None,
        <u16 as PixelSample>::picked(Pixels::Luma16(words)) == Some(words),
        <u16 as PixelSample>::picked(Pixels::Rgb16(words)) == Some(words),
        <u16 as PixelSample>::picked(Pixels::Rgb8(bytes)) is None,
{
}

/// A picture is filled band by band from the top: band `k` is the rows from `k * tile_h` on.
pub proof fn pictures_are_filled_from_the_top<C: Codec, T: PixelSample>(
    grid: PixelGrid,
    codec: &C,
    rows: int,
    k: int,
    out: Seq<T>,
    r: Result<Seq<T>, DecodeError>,
    start: int,
    len: int,
)
    requires
        grid.fills(codec, rows, k, out, r),
        start == k * grid.geo.tile_h * (grid.geo.out_w * grid.geo.channels),
        len == grid.geo.height_at(k) * (grid.geo.out_w * grid.geo.channels),
    ensures
        k >= rows ==> r == Ok::<Seq<T>, DecodeError>(out),
        k < rows && len == 0 ==> grid.fills(codec, rows, k + 1, out, r),
        k < rows && len > 0 ==> exists|b: Result<Seq<T>, DecodeError>|
            {
                &&& #[trigger] grid.stitches(codec, k, 0, out.subrange(start, start + len), b)
                &&& b matches Ok(part) ==> grid.fills(
                    codec,
                    rows,
                    k + 1,
                    out.take(start) + part + out.skip(start + part.len()),
                    r,
                )
                &&& b matches Err(e) ==> r == Err::<Seq<T>, DecodeError>(e)
            },
{
}

/// A tile is converted in its visible size and from its visible corner, in the colours of the grid.
/// One that does not lie in the file or cannot be decoded is left out.
pub proof fn tiles_are_converted_from_their_corner<C: Codec>(
    grid: PixelGrid,
    codec: &C,
    idx: int,
    r: Result<Option<ImageBuffer>, DecodeError>,
    b: ImageBuffer,
)
    requires
        grid.converts_tile(codec, idx, true, r),
    ensures
        grid.tiles[idx].data_offset + grid.tiles[idx].data_length > grid.file.len() ==> r == Ok::<
            Option<ImageBuffer>,
            DecodeError,
        >(None),
        r == Ok::<Option<ImageBuffer>, DecodeError>(Some(b)) ==> exists|planes: YuvPlanes|
            #[trigger] converts(
                codec,
                planes,
                grid.geo.tile_w,
                grid.geo.tile_h,
                grid.geo.tile_crop_left,
                grid.geo.tile_crop_top,
                grid.color,
                false,
                Ok(b),
            ),
{
}

} // verus!
