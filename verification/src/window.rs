//! The visible part of coded planes.
use vstd::prelude::*;
use crate::arith::{lemma_row_major, lemma_row_major_split, min_int};
use crate::error::DecodeError;
use crate::formats::{
    ceil_div, div_ceil, ChromaFormat, PlanarImage, PlaneBuffer, PlaneLayout, Raster, YuvBuffer,
};
use crate::sample::{no_memory, try_vec, Sample};
use crate::yuv::{NativePlanes, NativeYuvPlanes};

verus! {

/// Where the visible part of a coded picture starts.
#[derive(Clone, Copy, Debug, PartialEq, Eq, Structural)]
pub struct HevcVisibleCrop {
    pub left: usize,
    pub top: usize,
}

/// Complete rows of a buffer.
pub open spec fn whole_rows(len: int, src_w: int, src_h: int) -> int {
    if src_w == 0 {
        0
    } else {
        min_int(len / src_w, src_h)
    }
}

/// The sample that a window shows at `(x, y)`: positions beyond the source repeat its last column
/// and row, and without a source everything is zero.
pub open spec fn window_sample<T: Sample>(
    data: Seq<T>,
    src_w: int,
    src_h: int,
    left: int,
    top: int,
    x: int,
    y: int,
) -> T {
    let rows = whole_rows(data.len() as int, src_w, src_h);
    if rows <= 0 {
        T::of_zero()
    } else {
        data[min_int(top + y, rows - 1) * src_w + min_int(left + x, src_w - 1)]
    }
}

/// The samples that a window shows.
pub open spec fn window<T: Sample>(
    data: Seq<T>,
    src_w: int,
    src_h: int,
    left: int,
    top: int,
    w: int,
    h: int,
) -> Raster<T> {
    Raster {
        width: w,
        height: h,
        samples: Seq::new(
            (w * h) as nat,
            |i: int| window_sample(data, src_w, src_h, left, top, i % w, i / w),
        ),
    }
}

/// The window lies in the source.
pub open spec fn lies_inside(
    len: int,
    src_w: int,
    src_h: int,
    left: int,
    top: int,
    w: int,
    h: int,
) -> bool {
    let rows = whole_rows(len, src_w, src_h);
    rows > 0 && left + w <= src_w && top + h <= rows
}

/// A window can be had without a copy: it is empty or lies in the source.
pub open spec fn needs_no_copy(
    len: int,
    src_w: int,
    src_h: int,
    left: int,
    top: int,
    w: int,
    h: int,
) -> bool {
    w == 0 || h == 0 || lies_inside(len, src_w, src_h, left, top, w, h)
}

proof fn lemma_whole_rows(len: int, src_w: int, src_h: int)
    requires
        len >= 0,
        src_w >= 0,
        src_h >= 0,
    ensures
        0 <= whole_rows(len, src_w, src_h),
        whole_rows(len, src_w, src_h) * src_w <= len,
{
    if src_w > 0 {
        let rows = whole_rows(len, src_w, src_h);
        vstd::arithmetic::div_mod::lemma_fundamental_div_mod(len, src_w);
        assert(rows * src_w <= len) by (nonlinear_arith)
            requires
                0 <= rows <= len / src_w,
                len == src_w * (len / src_w) + len % src_w,
                0 <= len % src_w,
                src_w > 0,
        ;
    }
}

/// A plane has a buffer of its own, which holds the given samples and nothing else.
pub open spec fn stands_alone<T: Sample>(p: PlaneBuffer<T>, shown: Raster<T>) -> bool {
    &&& p.data@ == shown.samples
    &&& p.layout.stride == shown.width
    &&& p.layout.offset == 0
}

/// The buffer of a plane is kept where the window lies in it, and only described anew; any other
/// window has a buffer of its own.
pub open spec fn keeps_buffer<T: Sample>(
    p: PlaneBuffer<T>,
    data: Seq<T>,
    src_w: int,
    src_h: int,
    left: int,
    top: int,
    w: int,
    h: int,
) -> bool {
    if w > 0 && h > 0 && lies_inside(data.len() as int, src_w, src_h, left, top, w, h) {
        &&& p.data@ == data
        &&& p.layout.stride == src_w
        &&& p.layout.offset == top * src_w + left
    } else {
        stands_alone(p, window(data, src_w, src_h, left, top, w, h))
    }
}

/// `e` says why there is no window: it must be copied, and has more samples than can be numbered or
/// than there is memory for.
pub open spec fn window_fails<T: Sample>(
    len: int,
    src_w: int,
    src_h: int,
    crop_left: int,
    crop_top: int,
    dst_w: int,
    dst_h: int,
    e: DecodeError,
) -> bool {
    &&& !needs_no_copy(len, src_w, src_h, crop_left, crop_top, dst_w, dst_h)
    &&& e == if dst_w * dst_h > usize::MAX {
        DecodeError::Bitstream("visible plane dimensions overflow usize")
    } else {
        no_memory::<T>("visible image plane", dst_w * dst_h)
    }
}

fn whole_rows_of(len: usize, src_w: usize, src_h: usize) -> (r: usize)
    ensures
        r == whole_rows(len as int, src_w as int, src_h as int),
{
    if src_w == 0 {
        0
    } else {
        let q: usize = len / src_w;
        if q < src_h {
            q
        } else {
            src_h
        }
    }
}

/// Copies a window into a buffer of its own, given what came of asking for room. Positions beyond
/// the source repeat its last column and row.
pub fn copied_window<T: Sample>(
    room: Result<Vec<T>, DecodeError>,
    data: &Vec<T>,
    src_w: usize,
    src_h: usize,
    crop_left: usize,
    crop_top: usize,
    dst_w: usize,
    dst_h: usize,
) -> (r: Result<PlaneBuffer<T>, DecodeError>)
    requires
        room matches Ok(v) ==> v@.len() == dst_w * dst_h,
    ensures
        match room {
            Err(e) => r == Err::<PlaneBuffer<T>, DecodeError>(e),
            Ok(v) => {
                let full = window(
                    data@,
                    src_w as int,
                    src_h as int,
                    crop_left as int,
                    crop_top as int,
                    dst_w as int,
                    dst_h as int,
                );
                &&& r matches Ok(p)
                &&& p.wf()
                &&& p@ == full
                &&& stands_alone(p, full)
            },
        },
{
    let ghost full = window(
        data@,
        src_w as int,
        src_h as int,
        crop_left as int,
        crop_top as int,
        dst_w as int,
        dst_h as int,
    );
    let mut out: Vec<T> = match room {
        Ok(v) => v,
        Err(e) => return Err(e),
    };
    let len: usize = out.len();
    let data_len: usize = data.len();
    let rows: usize = whole_rows_of(data_len, src_w, src_h);
    proof {
        lemma_whole_rows(data_len as int, src_w as int, src_h as int);
    }
    let src_y0: usize = if rows == 0 || crop_top < rows - 1 {
        crop_top
    } else {
        rows - 1
    };
    let src_x0: usize = if rows == 0 || crop_left < src_w - 1 {
        crop_left
    } else {
        src_w - 1
    };
    let mut i: usize = 0;
    while i < len
        invariant
            data_len == data@.len(),
            len == dst_w * dst_h,
            rows == whole_rows(data_len as int, src_w as int, src_h as int),
            rows * src_w <= data_len,
            rows > 0 ==> src_w > 0 && src_y0 == min_int(crop_top as int, rows - 1),
            rows > 0 ==> src_x0 == min_int(crop_left as int, src_w - 1),
            out@.len() == len,
            i <= len,
            full == window(
                data@,
                src_w as int,
                src_h as int,
                crop_left as int,
                crop_top as int,
                dst_w as int,
                dst_h as int,
            ),
            forall|k: int| 0 <= k < i ==> out@[k] == full.samples[k],
        decreases len - i,
    {
        if rows == 0 {
            out.set(i, T::zero());
        } else {
            proof {
                assert(dst_w > 0 && dst_h > 0) by (nonlinear_arith)
                    requires
                        0 < dst_w * dst_h,
                        0 <= dst_w,
                        0 <= dst_h,
                ;
            }
            let x: usize = i % dst_w;
            let y: usize = i / dst_w;
            let src_y: usize = if y < rows - 1 - src_y0 {
                src_y0 + y
            } else {
                rows - 1
            };
            let src_x: usize = if x < src_w - 1 - src_x0 {
                src_x0 + x
            } else {
                src_w - 1
            };
            proof {
                assert(dst_w * dst_h == dst_h * dst_w) by (nonlinear_arith);
                lemma_row_major_split(i as int, dst_w as int, dst_h as int);
                assert(0 <= src_y * src_w && src_y * src_w + src_w <= rows * src_w)
                    by (nonlinear_arith)
                    requires
                        0 <= src_y <= rows - 1,
                        src_w >= 0,
                ;
            }
            let v: T = data[src_y * src_w + src_x];
            out.set(i, v);
        }
        i = i + 1;
    }
    let r: PlaneBuffer<T> = PlaneBuffer::tight(out, dst_w, dst_h);
    assert(r@ =~= full);
    Ok(r)
}

/// The visible part of a plane. If it lies in the coded plane the buffer is kept and only described
/// anew; else the samples are copied, and the last column and row repeated.
pub fn plane_window<T: Sample>(
    data: Vec<T>,
    src_w: usize,
    src_h: usize,
    crop_left: usize,
    crop_top: usize,
    dst_w: usize,
    dst_h: usize,
) -> (r: Result<PlaneBuffer<T>, DecodeError>)
    ensures
        ({
            let kept = needs_no_copy(
                data@.len() as int,
                src_w as int,
                src_h as int,
                crop_left as int,
                crop_top as int,
                dst_w as int,
                dst_h as int,
            );
            match r {
                Ok(p) => {
                    &&& p.wf()
                    &&& p@ == window(
                        data@,
                        src_w as int,
                        src_h as int,
                        crop_left as int,
                        crop_top as int,
                        dst_w as int,
                        dst_h as int,
                    )
                    &&& kept || dst_w * dst_h <= usize::MAX
                    &&& keeps_buffer(
                        p,
                        data@,
                        src_w as int,
                        src_h as int,
                        crop_left as int,
                        crop_top as int,
                        dst_w as int,
                        dst_h as int,
                    )
                },
                Err(e) => window_fails::<T>(
                    data@.len() as int,
                    src_w as int,
                    src_h as int,
                    crop_left as int,
                    crop_top as int,
                    dst_w as int,
                    dst_h as int,
                    e,
                ),
            }
        }),
{
    let ghost full = window(
        data@,
        src_w as int,
        src_h as int,
        crop_left as int,
        crop_top as int,
        dst_w as int,
        dst_h as int,
    );
    if dst_w == 0 || dst_h == 0 {
        proof {
            assert(dst_w * dst_h == 0) by (nonlinear_arith)
                requires
                    dst_w == 0 || dst_h == 0,
            ;
        }
        let empty: Vec<T> = Vec::new();
        let r: PlaneBuffer<T> = PlaneBuffer::tight(empty, dst_w, dst_h);
        assert(r@ =~= full);
        return Ok(r);
    }
    let data_len: usize = data.len();
    let rows: usize = whole_rows_of(data_len, src_w, src_h);
    proof {
        lemma_whole_rows(data_len as int, src_w as int, src_h as int);
    }
    let direct: bool = rows != 0 && dst_w <= src_w && crop_left <= src_w - dst_w && dst_h <= rows
        && crop_top <= rows - dst_h;
    if direct {
        proof {
            assert(crop_top * src_w + (dst_h - 1) * src_w + src_w <= rows * src_w)
                by (nonlinear_arith)
                requires
                    crop_top + dst_h <= rows,
                    src_w >= 0,
            ;
            assert(0 <= crop_top * src_w && 0 <= (dst_h - 1) * src_w) by (nonlinear_arith)
                requires
                    crop_top >= 0,
                    dst_h >= 1,
                    src_w >= 0,
            ;
        }
        let offset: usize = crop_top * src_w + crop_left;
        let r: PlaneBuffer<T> = PlaneBuffer::from_parts(
            data,
            PlaneLayout { width: dst_w, height: dst_h, stride: src_w, offset },
        );
        proof {
            assert forall|i: int| 0 <= i < dst_w * dst_h implies r.raster()[i] == full.samples[i] by {
                assert(dst_w * dst_h == dst_h * dst_w) by (nonlinear_arith);
                lemma_row_major_split(i, dst_w as int, dst_h as int);
                let y = i / dst_w as int;
                let x = i % dst_w as int;
                assert(offset + y * src_w + x == (crop_top + y) * src_w + (crop_left + x))
                    by (nonlinear_arith)
                    requires
                        offset == crop_top * src_w + crop_left,
                ;
            }
            assert(r.raster() =~= full.samples);
        }
        return Ok(r);
    }
    let len: usize = match dst_w.checked_mul(dst_h) {
        Some(v) => v,
        None => return Err(DecodeError::Bitstream("visible plane dimensions overflow usize")),
    };
    let room: Result<Vec<T>, DecodeError> = try_vec(T::zero(), len, "visible image plane");
    copied_window(room, &data, src_w, src_h, crop_left, crop_top, dst_w, dst_h)
}

/// Chroma planes of a picture are windowed in chroma samples.
pub open spec fn chroma_window<T: Sample>(
    planes: NativePlanes<T>,
    data: Seq<T>,
    dw: int,
    dh: int,
    crop: HevcVisibleCrop,
) -> Raster<T> {
    let sx = planes.chroma.step_x();
    let sy = planes.chroma.step_y();
    window(
        data,
        ceil_div(planes.width as int, sx),
        ceil_div(planes.height as int, sy),
        crop.left as int / sx,
        crop.top as int / sy,
        ceil_div(dw, sx),
        ceil_div(dh, sy),
    )
}

/// The buffer of a chroma plane is kept where the window lies in it.
pub open spec fn keeps_chroma<T: Sample>(
    p: Option<PlaneBuffer<T>>,
    planes: NativePlanes<T>,
    data: Seq<T>,
    dw: int,
    dh: int,
    crop: HevcVisibleCrop,
) -> bool {
    let sx = planes.chroma.step_x();
    let sy = planes.chroma.step_y();
    p matches Some(b) ==> keeps_buffer(
        b,
        data,
        ceil_div(planes.width as int, sx),
        ceil_div(planes.height as int, sy),
        crop.left as int / sx,
        crop.top as int / sy,
        ceil_div(dw, sx),
        ceil_div(dh, sy),
    )
}

/// What an optional plane shows.
pub open spec fn opt_plane<T: Sample>(p: Option<PlaneBuffer<T>>) -> Option<Raster<T>> {
    match p {
        Some(b) => Some(b@),
        None => None,
    }
}

/// `out` shows the visible part of the planes, in the buffers of the picture as far as possible; a
/// monochrome picture has no chroma.
pub open spec fn shows<T: Sample>(
    out: PlanarImage<T>,
    planes: NativePlanes<T>,
    dw: int,
    dh: int,
    crop: HevcVisibleCrop,
) -> bool {
    &&& out.wf()
    &&& out.y@ == window(
        planes.y@,
        planes.width as int,
        planes.height as int,
        crop.left as int,
        crop.top as int,
        dw,
        dh,
    )
    &&& opt_plane(out.cb) == if planes.chroma is Monochrome {
        None
    } else {
        Some(chroma_window(planes, planes.cb@, dw, dh, crop))
    }
    &&& opt_plane(out.cr) == if planes.chroma is Monochrome {
        None
    } else {
        Some(chroma_window(planes, planes.cr@, dw, dh, crop))
    }
    &&& keeps_buffer(
        out.y,
        planes.y@,
        planes.width as int,
        planes.height as int,
        crop.left as int,
        crop.top as int,
        dw,
        dh,
    )
    &&& keeps_chroma(out.cb, planes, planes.cb@, dw, dh, crop)
    &&& keeps_chroma(out.cr, planes, planes.cr@, dw, dh, crop)
}

/// The visible luma plane has more samples than can be numbered, and is no part of the coded plane.
pub open spec fn too_large<T: Sample>(
    planes: NativePlanes<T>,
    dw: int,
    dh: int,
    crop: HevcVisibleCrop,
) -> bool {
    &&& dw * dh > usize::MAX
    &&& !needs_no_copy(
        planes.y@.len() as int,
        planes.width as int,
        planes.height as int,
        crop.left as int,
        crop.top as int,
        dw,
        dh,
    )
}

/// `e` says why there is no window of the luma plane.
pub open spec fn luma_fails<T: Sample>(
    planes: NativePlanes<T>,
    dw: int,
    dh: int,
    crop: HevcVisibleCrop,
    e: DecodeError,
) -> bool {
    window_fails::<T>(
        planes.y@.len() as int,
        planes.width as int,
        planes.height as int,
        crop.left as int,
        crop.top as int,
        dw,
        dh,
        e,
    )
}

/// `e` says why there is no window of a chroma plane.
pub open spec fn chroma_fails<T: Sample>(
    planes: NativePlanes<T>,
    data: Seq<T>,
    dw: int,
    dh: int,
    crop: HevcVisibleCrop,
    e: DecodeError,
) -> bool {
    let sx = planes.chroma.step_x();
    let sy = planes.chroma.step_y();
    window_fails::<T>(
        data.len() as int,
        ceil_div(planes.width as int, sx),
        ceil_div(planes.height as int, sy),
        crop.left as int / sx,
        crop.top as int / sy,
        ceil_div(dw, sx),
        ceil_div(dh, sy),
        e,
    )
}

/// `e` says why there is no window of one of the planes. The luma plane comes first.
pub open spec fn planes_fail<T: Sample>(
    planes: NativePlanes<T>,
    dw: int,
    dh: int,
    crop: HevcVisibleCrop,
    e: DecodeError,
) -> bool {
    ||| luma_fails(planes, dw, dh, crop, e)
    ||| {
        &&& !too_large(planes, dw, dh, crop)
        &&& !(planes.chroma is Monochrome)
        &&& chroma_fails(planes, planes.cb@, dw, dh, crop, e) || chroma_fails(
            planes,
            planes.cr@,
            dw,
            dh,
            crop,
            e,
        )
    }
}

/// The visible part of all planes of a picture.
pub fn visible_native_planes<T: Sample>(
    planes: NativePlanes<T>,
    dw: usize,
    dh: usize,
    crop: HevcVisibleCrop,
) -> (r: Result<PlanarImage<T>, DecodeError>)
    ensures
        match r {
            Ok(out) => shows(out, planes, dw as int, dh as int, crop),
            Err(e) => planes_fail(planes, dw as int, dh as int, crop, e),
        },
        too_large(planes, dw as int, dh as int, crop) ==> r is Err,
{
    let ghost start = planes;
    let width: usize = planes.width;
    let height: usize = planes.height;
    let chroma: ChromaFormat = planes.chroma;
    let luma_len: usize = planes.y.len();
    let y: PlaneBuffer<T> = match plane_window(
        planes.y,
        width,
        height,
        crop.left,
        crop.top,
        dw,
        dh,
    ) {
        Ok(p) => p,
        Err(e) => return Err(e),
    };
    if chroma.is_monochrome() {
        return Ok(PlanarImage { y, cb: None, cr: None });
    }
    let sub_w: usize = chroma.sub_w();
    let sub_h: usize = chroma.sub_h();
    let coded_cw: usize = div_ceil(width, sub_w);
    let coded_ch: usize = div_ceil(height, sub_h);
    let cw: usize = div_ceil(dw, sub_w);
    let ch: usize = div_ceil(dh, sub_h);
    proof {
        lemma_chroma_fits(start, dw as int, dh as int, crop, luma_len as int, cw as int, ch as int);
    }
    let cb: PlaneBuffer<T> = match plane_window(
        planes.cb,
        coded_cw,
        coded_ch,
        crop.left / sub_w,
        crop.top / sub_h,
        cw,
        ch,
    ) {
        Ok(p) => p,
        Err(e) => return Err(e),
    };
    let cr: PlaneBuffer<T> = match plane_window(
        planes.cr,
        coded_cw,
        coded_ch,
        crop.left / sub_w,
        crop.top / sub_h,
        cw,
        ch,
    ) {
        Ok(p) => p,
        Err(e) => return Err(e),
    };
    Ok(PlanarImage { y, cb: Some(cb), cr: Some(cr) })
}

/// Chroma planes can be numbered where luma planes can.
pub(crate) proof fn lemma_chroma_fits<T: Sample>(
    planes: NativePlanes<T>,
    dw: int,
    dh: int,
    crop: HevcVisibleCrop,
    luma_len: int,
    cw: int,
    ch: int,
)
    requires
        luma_len == planes.y@.len(),
        luma_len <= usize::MAX,
        0 <= cw <= dw,
        0 <= ch <= dh,
        !too_large(planes, dw, dh, crop),
    ensures
        cw * ch <= usize::MAX,
{
    assert(cw * ch <= dw * dh) by (nonlinear_arith)
        requires
            0 <= cw <= dw,
            0 <= ch <= dh,
    ;
    if dw * dh > usize::MAX {
        let rows = whole_rows(luma_len, planes.width as int, planes.height as int);
        if dw == 0 || dh == 0 {
            assert(dw * dh == 0) by (nonlinear_arith)
                requires
                    dw == 0 || dh == 0,
            ;
        } else {
            lemma_whole_rows(luma_len, planes.width as int, planes.height as int);
            assert(dw * dh <= planes.width * rows) by (nonlinear_arith)
                requires
                    0 <= dw <= planes.width,
                    0 <= dh <= rows,
            ;
            assert(planes.width * rows == rows * planes.width) by (nonlinear_arith);
        }
    }
}

/// `out` shows the visible part of a picture, in its sample type.
pub open spec fn buffer_shows(
    out: YuvBuffer,
    planes: NativeYuvPlanes,
    dw: int,
    dh: int,
    crop: HevcVisibleCrop,
) -> bool {
    match planes {
        NativeYuvPlanes::U8(p) => out matches YuvBuffer::U8(o) && shows(o, p, dw, dh, crop),
        NativeYuvPlanes::U16(p) => out matches YuvBuffer::U16(o) && shows(o, p, dw, dh, crop),
    }
}

/// The visible luma plane of a picture cannot be numbered.
pub open spec fn picture_too_large(
    planes: NativeYuvPlanes,
    dw: int,
    dh: int,
    crop: HevcVisibleCrop,
) -> bool {
    match planes {
        NativeYuvPlanes::U8(p) => too_large(p, dw, dh, crop),
        NativeYuvPlanes::U16(p) => too_large(p, dw, dh, crop),
    }
}

/// `e` says why there is no window of a picture.
pub open spec fn picture_fails(
    planes: NativeYuvPlanes,
    dw: int,
    dh: int,
    crop: HevcVisibleCrop,
    e: DecodeError,
) -> bool {
    match planes {
        NativeYuvPlanes::U8(p) => planes_fail(p, dw, dh, crop, e),
        NativeYuvPlanes::U16(p) => planes_fail(p, dw, dh, crop, e),
    }
}

/// The visible part of a picture.
pub fn native_to_visible_buffer(
    planes: NativeYuvPlanes,
    dw: usize,
    dh: usize,
    crop: HevcVisibleCrop,
) -> (r: Result<YuvBuffer, DecodeError>)
    ensures
        match r {
            Ok(out) => buffer_shows(out, planes, dw as int, dh as int, crop) && out.wf(),
            Err(e) => picture_fails(planes, dw as int, dh as int, crop, e),
        },
        picture_too_large(planes, dw as int, dh as int, crop) ==> r is Err,
{
    match planes {
        NativeYuvPlanes::U8(p) => match visible_native_planes(p, dw, dh, crop) {
            Ok(v) => Ok(YuvBuffer::U8(v)),
            Err(e) => Err(e),
        },
        NativeYuvPlanes::U16(p) => match visible_native_planes(p, dw, dh, crop) {
            Ok(v) => Ok(YuvBuffer::U16(v)),
            Err(e) => Err(e),
        },
    }
}

/// A window over the whole of a plane shows the plane.
pub proof fn full_window_shows_the_plane<T: Sample>(data: Seq<T>, w: int, h: int)
    requires
        0 < w,
        0 < h,
        data.len() == w * h,
    ensures
        window(data, w, h, 0, 0, w, h).samples == data,
{
    assert(w * h == h * w) by (nonlinear_arith);
    vstd::arithmetic::div_mod::lemma_fundamental_div_mod_converse(data.len() as int, w, h, 0);
    assert forall|i: int| 0 <= i < data.len() implies window(data, w, h, 0, 0, w, h).samples[i]
        == data[i] by {
        lemma_row_major_split(i, w, h);
    }
    assert(window(data, w, h, 0, 0, w, h).samples =~= data);
}

/// Sample `(x, y)` of a window is sample `(left + x, top + y)` of the picture, stored at `y * w +
/// x`. Beyond the picture's right and lower border its last column and its last whole row repeat.
pub proof fn windows_show_the_picture<T: Sample>(
    data: Seq<T>,
    src_w: int,
    src_h: int,
    left: int,
    top: int,
    w: int,
    h: int,
    x: int,
    y: int,
    rows: int,
    px: int,
    py: int,
)
    requires
        0 < src_w,
        0 < rows <= src_h,
        rows * src_w <= data.len(),
        rows == src_h || (rows + 1) * src_w > data.len(),
        0 <= left,
        0 <= top,
        0 <= x < w,
        0 <= y < h,
        left + x < src_w ==> px == left + x,
        left + x >= src_w ==> px == src_w - 1,
        top + y < rows ==> py == top + y,
        top + y >= rows ==> py == rows - 1,
    ensures
        window(data, src_w, src_h, left, top, w, h).width == w,
        window(data, src_w, src_h, left, top, w, h).height == h,
        window(data, src_w, src_h, left, top, w, h).samples.len() == w * h,
        window(data, src_w, src_h, left, top, w, h).samples[y * w + x] == data[py * src_w + px],
{
    lemma_row_major(y, x, w, h);
    assert(h * w == w * h) by (nonlinear_arith);
    assert(h * w >= 0) by (nonlinear_arith)
        requires
            h > 0,
            w > 0,
    ;
    let q = data.len() as int / src_w;
    vstd::arithmetic::div_mod::lemma_fundamental_div_mod(data.len() as int, src_w);
    let r = data.len() as int % src_w;
    assert(rows <= q && (rows == src_h || rows == q)) by (nonlinear_arith)
        requires
            rows * src_w <= src_w * q + r,
            rows == src_h || (rows + 1) * src_w > src_w * q + r,
            0 <= r < src_w,
            0 < src_w,
    ;
    assert(whole_rows(data.len() as int, src_w, src_h) == rows);
}

/// Chroma planes are as large as the luma plane over the steps of the format, rounded up, and their
/// window starts at the luma window's corner over the steps, rounded down.
pub proof fn chroma_windows_follow_the_steps<T: Sample>(
    planes: NativePlanes<T>,
    data: Seq<T>,
    dw: int,
    dh: int,
    crop: HevcVisibleCrop,
)
    requires
        0 <= dw,
        0 <= dh,
    ensures
        ({
            let c = chroma_window(planes, data, dw, dh, crop);
            let (w, h) = (planes.width as int, planes.height as int);
            let (l, t) = (crop.left as int, crop.top as int);
            &&& planes.chroma is Yuv420 ==> c == window(
                data,
                (w + 1) / 2,
                (h + 1) / 2,
                l / 2,
                t / 2,
                (dw + 1) / 2,
                (dh + 1) / 2,
            )
            &&& planes.chroma is Yuv422 ==> c == window(data, (w + 1) / 2, h, l / 2, t, (dw + 1)
                / 2, dh)
            &&& planes.chroma is Yuv444 ==> c == window(data, w, h, l, t, dw, dh)
        }),
{
    let (w, h) = (planes.width as int, planes.height as int);
    let (l, t) = (crop.left as int, crop.top as int);
    assert(ceil_div(w, 1) == w && ceil_div(h, 1) == h);
    assert(ceil_div(dw, 1) == dw && ceil_div(dh, 1) == dh);
    assert(l / 1 == l && t / 1 == t);
    assert(ceil_div(w, 2) == (w + 1) / 2 && ceil_div(h, 2) == (h + 1) / 2);
    assert(ceil_div(dw, 2) == (dw + 1) / 2 && ceil_div(dh, 2) == (dh + 1) / 2);
}

/// A window that lies in the whole rows of a picture shares its buffer; another one has a buffer of
/// its own. Only the latter can fail, for want of memory or because its size cannot be counted.
pub proof fn windows_inside_share_the_buffer<T: Sample>(
    p: PlaneBuffer<T>,
    data: Seq<T>,
    src_w: int,
    src_h: int,
    left: int,
    top: int,
    w: int,
    h: int,
    rows: int,
    e: DecodeError,
)
    requires
        rows == whole_rows(data.len() as int, src_w, src_h),
    ensures
        ({
            let inside = rows > 0 && left + w <= src_w && top + h <= rows;
            let shared = w > 0 && h > 0 && inside;
            &&& keeps_buffer(p, data, src_w, src_h, left, top, w, h) && shared ==> p.data@ == data
                && p.layout.stride == src_w && p.layout.offset == top * src_w + left
            &&& keeps_buffer(p, data, src_w, src_h, left, top, w, h) && !shared ==> p.data@
                == window(data, src_w, src_h, left, top, w, h).samples && p.layout.stride == w
                && p.layout.offset == 0
            &&& window_fails::<T>(data.len() as int, src_w, src_h, left, top, w, h, e) ==> !inside
                && w != 0 && h != 0
            &&& window_fails::<T>(data.len() as int, src_w, src_h, left, top, w, h, e) && w * h
                <= usize::MAX ==> e == no_memory::<T>("visible image plane", w * h)
        }),
{
}

/// Monochrome pictures have no chroma planes.
pub proof fn grey_windows_have_no_chroma<T: Sample>(
    out: PlanarImage<T>,
    planes: NativePlanes<T>,
    dw: int,
    dh: int,
    crop: HevcVisibleCrop,
)
    requires
        shows(out, planes, dw, dh, crop),
    ensures
        planes.chroma is Monochrome ==> out.cb is None && out.cr is None,
        !(planes.chroma is Monochrome) ==> out.cb is Some && out.cr is Some,
        !(planes.chroma is Monochrome) ==> out.cb->0@ == chroma_window(
            planes,
            planes.cb@,
            dw,
            dh,
            crop,
        ),
        !(planes.chroma is Monochrome) ==> out.cr->0@ == chroma_window(
            planes,
            planes.cr@,
            dw,
            dh,
            crop,
        ),
        out.y@ == window(
            planes.y@,
            planes.width as int,
            planes.height as int,
            crop.left as int,
            crop.top as int,
            dw,
            dh,
        ),
{
}

} // verus!
