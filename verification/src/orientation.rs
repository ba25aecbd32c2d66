//! Turning and mirroring of images.
use vstd::prelude::*;
use crate::arith::{lemma_row_major, lemma_row_major_split};
use crate::error::DecodeError;
use crate::formats::{ImageBuffer, Pixels, SampleBuf, Samples};
use crate::image::opt_samples;
use crate::metadata::Orientation;
use crate::sample::{no_memory, try_vec, Sample};

verus! {

/// Number of the source sample that output sample `i` shows, in a buffer of `len` samples with `c`
/// samples per pixel and `w` by `h` pixels. A negative number stands for a sample that is left
/// blank.
pub open spec fn source_index(o: Orientation, len: int, w: int, h: int, c: int, i: int) -> int {
    let pitch = w * c;
    let rows = len / pitch;
    let k = i % c;
    let p = i / c;
    match o {
        Orientation::Rotate180 => {
            let count = len / c;
            if p < count {
                (count - 1 - p) * c + k
            } else {
                i
            }
        },
        Orientation::FlipH => if i / pitch < rows {
            (i / pitch) * pitch + (w - 1 - (i % pitch) / c) * c + k
        } else {
            -1
        },
        Orientation::FlipV => if i / pitch < rows {
            (rows - 1 - i / pitch) * pitch + i % pitch
        } else {
            -1
        },
        Orientation::Rotate90 => if p < w * h {
            ((h - 1 - p % h) * w + p / h) * c + k
        } else {
            -1
        },
        Orientation::Rotate270 => if p < w * h {
            ((p % h) * w + (w - 1 - p / h)) * c + k
        } else {
            -1
        },
        Orientation::Transpose => if p < w * h {
            ((p % h) * w + p / h) * c + k
        } else {
            -1
        },
        Orientation::Transverse => if p < w * h {
            ((h - 1 - p % h) * w + (w - 1 - p / h)) * c + k
        } else {
            -1
        },
        Orientation::Normal => i,
    }
}

/// A buffer of `w` by `h` pixels with `c` samples each, turned for display. Samples beyond the
/// whole rows, or beyond the picture, become zero.
pub open spec fn oriented<T: Sample>(s: Seq<T>, w: int, h: int, c: int, o: Orientation) -> Seq<T> {
    Seq::new(
        s.len(),
        |i: int|
            {
                let j = source_index(o, s.len() as int, w, h, c, i);
                if j < 0 {
                    T::of_zero()
                } else {
                    s[j]
                }
            },
    )
}

/// The buffer is large enough for the operation, and its rows are not empty where the operation
/// works by rows.
pub open spec fn can_orient(o: Orientation, len: int, w: int, h: int, c: int) -> bool {
    match o {
        Orientation::FlipH | Orientation::FlipV => 0 < w && w * c <= usize::MAX,
        Orientation::Rotate90
        | Orientation::Rotate270
        | Orientation::Transpose
        | Orientation::Transverse => w * h * c <= len,
        _ => true,
    }
}

/// Whether a buffer can be turned.
pub fn orientable(o: Orientation, len: usize, w: u32, h: u32, c: usize) -> (r: bool)
    requires
        c <= 3,
    ensures
        r == can_orient(o, len as int, w as int, h as int, c as int),
{
    proof {
        assert(0 <= w * h <= 0xffff_ffff * 0xffff_ffff) by (nonlinear_arith)
            requires
                0 <= w <= 0xffff_ffff,
                0 <= h <= 0xffff_ffff,
        ;
        assert(0 <= w * h * c <= 0xffff_ffff * 0xffff_ffff * 3) by (nonlinear_arith)
            requires
                0 <= w * h <= 0xffff_ffff * 0xffff_ffff,
                0 <= c <= 3,
        ;
        assert(0 <= w * c <= 0xffff_ffff * 3) by (nonlinear_arith)
            requires
                0 <= w <= 0xffff_ffff,
                0 <= c <= 3,
        ;
    }
    match o {
        Orientation::FlipH | Orientation::FlipV => 0 < w && w as u128 * c as u128
            <= usize::MAX as u128,
        Orientation::Rotate90
        | Orientation::Rotate270
        | Orientation::Transpose
        | Orientation::Transverse => w as u128 * h as u128 * c as u128 <= len as u128,
        _ => true,
    }
}

/// Columns of the source become rows.
pub open spec fn exchanges_axes(o: Orientation) -> bool {
    o is Rotate90 || o is Rotate270 || o is Transpose || o is Transverse
}

/// Sizes exchange their roles for the orientations that exchange the axes.
pub open spec fn oriented_size(w: u32, h: u32, o: Orientation) -> (u32, u32) {
    if exchanges_axes(o) {
        (h, w)
    } else {
        (w, h)
    }
}

/// The size of an image after turning.
pub fn oriented_dimensions(width: u32, height: u32, orientation: Orientation) -> (r: (u32, u32))
    ensures
        r == oriented_size(width, height, orientation),
{
    match orientation {
        Orientation::Rotate90
        | Orientation::Rotate270
        | Orientation::Transverse
        | Orientation::Transpose => (height, width),
        _ => (width, height),
    }
}

/// Every sample that is shown exists.
proof fn lemma_source_in_range(o: Orientation, len: int, w: int, h: int, c: int, i: int)
    requires
        can_orient(o, len, w, h, c),
        0 <= w,
        0 <= h,
        0 < c,
        0 <= i < len,
    ensures
        source_index(o, len, w, h, c, i) < len,
        !needs_memory(o) ==> source_index(o, len, w, h, c, i) >= 0,
{
    let pitch = w * c;
    let k = i % c;
    let p = i / c;
    assert(len < (len + 1) * c) by (nonlinear_arith)
        requires
            0 <= len,
            c > 0,
    ;
    lemma_row_major_split(i, c, len + 1);
    match o {
        Orientation::Rotate180 => {
            let count = len / c;
            lemma_row_major_split(len, c, len + 1);
            if p < count {
                lemma_row_major(count - 1 - p, k, c, count);
            }
        },
        Orientation::FlipH => {
            assert(pitch > 0) by (nonlinear_arith)
                requires
                    w > 0,
                    c > 0,
                    pitch == w * c,
            ;
            assert(len < (len + 1) * pitch) by (nonlinear_arith)
                requires
                    0 <= len,
                    pitch > 0,
            ;
            lemma_row_major_split(len, pitch, len + 1);
            lemma_row_major_split(i, pitch, len + 1);
            let rows = len / pitch;
            if i / pitch < rows {
                let x = (i % pitch) / c;
                lemma_row_major_split(i % pitch, c, w);
                lemma_row_major(w - 1 - x, k, c, w);
                lemma_row_major(i / pitch, (w - 1 - x) * c + k, pitch, rows);
            }
        },
        Orientation::FlipV => {
            assert(pitch > 0) by (nonlinear_arith)
                requires
                    w > 0,
                    c > 0,
                    pitch == w * c,
            ;
            assert(len < (len + 1) * pitch) by (nonlinear_arith)
                requires
                    0 <= len,
                    pitch > 0,
            ;
            lemma_row_major_split(len, pitch, len + 1);
            lemma_row_major_split(i, pitch, len + 1);
            let rows = len / pitch;
            if i / pitch < rows {
                lemma_row_major(rows - 1 - i / pitch, i % pitch, pitch, rows);
            }
        },
        Orientation::Rotate90 => {
            if p < w * h {
                lemma_turned(w, h, p);
                lemma_row_major(h - 1 - p % h, p / h, w, h);
                lemma_row_major((h - 1 - p % h) * w + p / h, k, c, w * h);
            }
        },
        Orientation::Rotate270 => {
            if p < w * h {
                lemma_turned(w, h, p);
                lemma_row_major(p % h, w - 1 - p / h, w, h);
                lemma_row_major((p % h) * w + (w - 1 - p / h), k, c, w * h);
            }
        },
        Orientation::Transpose => {
            if p < w * h {
                lemma_turned(w, h, p);
                lemma_row_major(p % h, p / h, w, h);
                lemma_row_major((p % h) * w + p / h, k, c, w * h);
            }
        },
        Orientation::Transverse => {
            if p < w * h {
                lemma_turned(w, h, p);
                lemma_row_major(h - 1 - p % h, w - 1 - p / h, w, h);
                lemma_row_major((h - 1 - p % h) * w + (w - 1 - p / h), k, c, w * h);
            }
        },
        Orientation::Normal => {},
    }
}

/// Positions in a turned picture: `h` pixels per row, `w` rows.
proof fn lemma_turned(w: int, h: int, p: int)
    requires
        0 <= w,
        0 <= h,
        0 <= p < w * h,
    ensures
        0 < w,
        0 < h,
        0 <= p % h < h,
        0 <= p / h < w,
        p == (p / h) * h + p % h,
        w * h == h * w,
{
    assert(w > 0 && h > 0) by (nonlinear_arith)
        requires
            0 <= w,
            0 <= h,
            0 < w * h,
    ;
    assert(w * h == h * w) by (nonlinear_arith);
    lemma_row_major_split(p, h, w);
}

fn source_index_of(
    o: Orientation,
    len: usize,
    w: usize,
    h: usize,
    c: usize,
    i: usize,
) -> (r: Option<usize>)
    requires
        needs_memory(o),
        can_orient(o, len as int, w as int, h as int, c as int),
        0 < c,
        0 <= i < len,
    ensures
        match r {
            Some(j) => j == source_index(o, len as int, w as int, h as int, c as int, i as int) && j
                < len,
            None => source_index(o, len as int, w as int, h as int, c as int, i as int) < 0,
        },
{
    proof {
        lemma_source_in_range(o, len as int, w as int, h as int, c as int, i as int);
        assert(len < (len + 1) * c) by (nonlinear_arith)
            requires
                0 <= len,
                c > 0,
        ;
        lemma_row_major_split(i as int, c as int, len + 1);
    }
    let k: usize = i % c;
    let p: usize = i / c;
    match o {
        Orientation::FlipH | Orientation::FlipV => {
            let pitch: usize = w * c;
            proof {
                assert(pitch > 0) by (nonlinear_arith)
                    requires
                        w > 0,
                        c > 0,
                        pitch == w * c,
                ;
                assert(len < (len + 1) * pitch) by (nonlinear_arith)
                    requires
                        0 <= len,
                        pitch > 0,
                ;
                lemma_row_major_split(len as int, pitch as int, len + 1);
                lemma_row_major_split(i as int, pitch as int, len + 1);
            }
            let rows: usize = len / pitch;
            let row: usize = i / pitch;
            let col: usize = i % pitch;
            if row >= rows {
                return None;
            }
            match o {
                Orientation::FlipH => {
                    let x: usize = col / c;
                    proof {
                        lemma_row_major_split(col as int, c as int, w as int);
                        lemma_row_major(w - 1 - x, k as int, c as int, w as int);
                        lemma_row_major(
                            row as int,
                            (w - 1 - x) * c + k,
                            pitch as int,
                            rows as int,
                        );
                        assert(row * pitch >= 0) by (nonlinear_arith)
                            requires
                                row >= 0,
                                pitch > 0,
                        ;
                        assert((w - 1 - x) * c >= 0) by (nonlinear_arith)
                            requires
                                w - 1 - x >= 0,
                                c > 0,
                        ;
                    }
                    Some(row * pitch + (w - 1 - x) * c + k)
                },
                _ => {
                    proof {
                        lemma_row_major(
                            rows - 1 - row,
                            col as int,
                            pitch as int,
                            rows as int,
                        );
                        assert((rows - 1 - row) * pitch >= 0) by (nonlinear_arith)
                            requires
                                rows - 1 - row >= 0,
                                pitch > 0,
                        ;
                    }
                    Some((rows - 1 - row) * pitch + col)
                },
            }
        },
        _ => {
            proof {
                assert(w * h <= w * h * c) by (nonlinear_arith)
                    requires
                        w >= 0,
                        h >= 0,
                        c >= 1,
                ;
            }
            let count: usize = w * h;
            if p >= count {
                return None;
            }
            proof {
                lemma_turned(w as int, h as int, p as int);
            }
            let x: usize = p % h;
            let y: usize = p / h;
            let (sx, sy): (usize, usize) = match o {
                Orientation::Rotate90 => (y, h - 1 - x),
                Orientation::Rotate270 => (w - 1 - y, x),
                Orientation::Transpose => (y, x),
                _ => (w - 1 - y, h - 1 - x),
            };
            proof {
                lemma_row_major(sy as int, sx as int, w as int, h as int);
                lemma_row_major(sy * w + sx, k as int, c as int, w * h);
                assert(sy * w >= 0) by (nonlinear_arith)
                    requires
                        sy >= 0,
                        w > 0,
                ;
                assert((sy * w + sx) * c >= 0) by (nonlinear_arith)
                    requires
                        sy * w + sx >= 0,
                        c > 0,
                ;
            }
            Some((sy * w + sx) * c + k)
        },
    }
}

/// Turns a buffer by half a turn, in place.
fn rotate_half<T: Sample>(pixels: Vec<T>, c: usize) -> (r: Vec<T>)
    requires
        0 < c,
    ensures
        r@ == oriented(pixels@, 0, 0, c as int, Orientation::Rotate180),
{
    let mut out: Vec<T> = pixels;
    let ghost s = out@;
    let len: usize = out.len();
    let count: usize = len / c;
    let ghost o = Orientation::Rotate180;
    proof {
        assert(len < (len + 1) * c) by (nonlinear_arith)
            requires
                0 <= len,
                c > 0,
        ;
        lemma_row_major_split(len as int, c as int, len + 1);
    }
    let mut left: usize = 0;
    while left < count / 2
        invariant
            0 < c,
            s.len() == len,
            out@.len() == len,
            count == len as int / c as int,
            count * c <= len,
            o is Rotate180,
            left <= count / 2,
            forall|i: int|
                0 <= i < len ==> (#[trigger] out@[i]) == if half_done(
                    count as int,
                    c as int,
                    left as int,
                    0,
                    i,
                ) {
                    s[source_index(o, len as int, 0, 0, c as int, i)]
                } else {
                    s[i]
                },
        decreases count - left,
    {
        let right: usize = count - 1 - left;
        let mut ch: usize = 0;
        while ch < c
            invariant
                0 < c,
                s.len() == len,
                out@.len() == len,
                count == len as int / c as int,
                count * c <= len,
                o is Rotate180,
                left < count / 2,
                right == count - 1 - left,
                ch <= c,
                forall|i: int|
                    0 <= i < len ==> (#[trigger] out@[i]) == if half_done(
                        count as int,
                        c as int,
                        left as int,
                        ch as int,
                        i,
                    ) {
                        s[source_index(o, len as int, 0, 0, c as int, i)]
                    } else {
                        s[i]
                    },
            decreases c - ch,
        {
            proof {
                lemma_row_major(left as int, ch as int, c as int, count as int);
                lemma_row_major(right as int, ch as int, c as int, count as int);
                assert(left * c >= 0 && right * c >= 0) by (nonlinear_arith)
                    requires
                        left >= 0,
                        right >= 0,
                        c > 0,
                ;
                assert forall|i: int|
                    #![trigger out@[i]]
                    0 <= i < len && i % c as int == ch && (i / c as int == left || i / c as int
                        == right) implies i == left * c + ch || i == right * c + ch by {
                    vstd::arithmetic::div_mod::lemma_fundamental_div_mod(i, c as int);
                    assert(c * left == left * c) by (nonlinear_arith);
                    assert(c * right == right * c) by (nonlinear_arith);
                }
            }
            let i: usize = left * c + ch;
            let j: usize = right * c + ch;
            let a: T = out[i];
            let b: T = out[j];
            out.set(i, b);
            out.set(j, a);
            ch = ch + 1;
        }
        left = left + 1;
        proof {
            assert forall|i: int| 0 <= i < len implies (#[trigger] half_done(
                count as int,
                c as int,
                left - 1,
                c as int,
                i,
            )) == half_done(count as int, c as int, left as int, 0, i) by {
                lemma_row_major_split_any(i, c as int);
            }
            assert forall|i: int| 0 <= i < len implies (#[trigger] out@[i]) == if half_done(
                count as int,
                c as int,
                left as int,
                0,
                i,
            ) {
                s[source_index(o, len as int, 0, 0, c as int, i)]
            } else {
                s[i]
            } by {
                assert(half_done(count as int, c as int, left - 1, c as int, i) == half_done(
                    count as int,
                    c as int,
                    left as int,
                    0,
                    i,
                ));
            }
        }
    }
    proof {
        assert forall|i: int| 0 <= i < len implies out@[i] == oriented(s, 0, 0, c as int, o)[i] by {
            lemma_row_major_split_any(i, c as int);
            let p = i / c as int;
            if p < count && !half_done(count as int, c as int, left as int, 0, i) {
                assert(p == count - 1 - p);
                assert(source_index(o, len as int, 0, 0, c as int, i) == i);
            }
            lemma_source_in_range(o, len as int, 0, 0, c as int, i);
        }
        assert(out@ =~= oriented(s, 0, 0, c as int, o));
    }
    out
}

/// Sample `i` belongs to a pixel that half a turn has dealt with: the first and last `left` pixels,
/// and `ch` samples of the next ones.
spec fn half_done(count: int, c: int, left: int, ch: int, i: int) -> bool {
    let p = i / c;
    p < count && (p < left || p > count - 1 - left || ((p == left || p == count - 1 - left) && i % c
        < ch))
}

proof fn lemma_row_major_split_any(i: int, c: int)
    requires
        0 <= i,
        0 < c,
    ensures
        0 <= i / c,
        0 <= i % c < c,
        i == (i / c) * c + i % c,
{
    assert(i < (i + 1) * c) by (nonlinear_arith)
        requires
            0 <= i,
            c > 0,
    ;
    lemma_row_major_split(i, c, i + 1);
}

/// Turns a buffer with `c` samples per pixel.
fn rotate_pixels<T: Sample>(
    w: usize,
    h: usize,
    c: usize,
    pixels: Vec<T>,
    orientation: Orientation,
    what: &'static str,
) -> (r: Result<Vec<T>, DecodeError>)
    requires
        0 < c,
        can_orient(orientation, pixels@.len() as int, w as int, h as int, c as int),
    ensures
        match r {
            Ok(v) => v@ == oriented(pixels@, w as int, h as int, c as int, orientation),
            Err(e) => e == no_memory::<T>(what, pixels@.len() as int),
        },
        !needs_memory(orientation) ==> r is Ok,
{
    match orientation {
        Orientation::Rotate180 => {
            let out: Vec<T> = rotate_half(pixels, c);
            assert(out@ =~= oriented(pixels@, w as int, h as int, c as int, orientation));
            return Ok(out);
        },
        Orientation::Normal => {
            assert(pixels@ =~= oriented(pixels@, w as int, h as int, c as int, orientation));
            return Ok(pixels);
        },
        _ => {},
    }
    let room: Result<Vec<T>, DecodeError> = try_vec(T::zero(), pixels.len(), what);
    turned_into(room, w, h, c, pixels, orientation)
}

/// Turns a buffer with `c` samples per pixel into another one, if there is room for that.
pub fn turned_into<T: Sample>(
    room: Result<Vec<T>, DecodeError>,
    w: usize,
    h: usize,
    c: usize,
    pixels: Vec<T>,
    orientation: Orientation,
) -> (r: Result<Vec<T>, DecodeError>)
    requires
        0 < c,
        needs_memory(orientation),
        can_orient(orientation, pixels@.len() as int, w as int, h as int, c as int),
        room matches Ok(v) ==> v@.len() == pixels@.len(),
    ensures
        match room {
            Err(e) => r == Err::<Vec<T>, DecodeError>(e),
            Ok(_) => r matches Ok(v) && v@ == oriented(
                pixels@,
                w as int,
                h as int,
                c as int,
                orientation,
            ),
        },
{
    let len: usize = pixels.len();
    let mut out: Vec<T> = match room {
        Ok(v) => v,
        Err(e) => return Err(e),
    };
    let mut i: usize = 0;
    while i < len
        invariant
            len == pixels@.len(),
            needs_memory(orientation),
            0 < c,
            can_orient(orientation, len as int, w as int, h as int, c as int),
            out@.len() == len,
            i <= len,
            forall|j: int|
                0 <= j < i ==> out@[j] == oriented(
                    pixels@,
                    w as int,
                    h as int,
                    c as int,
                    orientation,
                )[j],
        decreases len - i,
    {
        match source_index_of(orientation, len, w, h, c, i) {
            Some(j) => {
                let v: T = pixels[j];
                out.set(i, v);
            },
            None => {
                out.set(i, T::zero());
            },
        }
        i = i + 1;
    }
    assert(out@ =~= oriented(pixels@, w as int, h as int, c as int, orientation));
    Ok(out)
}

/// Turning needs a second buffer: all orientations but the identity and half a turn.
pub open spec fn needs_memory(o: Orientation) -> bool {
    !(o is Normal || o is Rotate180)
}

/// Turns a plane.
pub fn rotate_luma<T: Sample>(w: usize, h: usize, pixels: Vec<T>, orientation: Orientation) -> (r:
    Result<Vec<T>, DecodeError>)
    requires
        can_orient(orientation, pixels@.len() as int, w as int, h as int, 1),
    ensures
        match r {
            Ok(v) => v@ == oriented(pixels@, w as int, h as int, 1, orientation),
            Err(e) => e == no_memory::<T>("oriented luma image", pixels@.len() as int),
        },
        !needs_memory(orientation) ==> r is Ok,
{
    rotate_pixels(w, h, 1, pixels, orientation, "oriented luma image")
}

/// Turns an image with three samples per pixel.
pub fn rotate_buf<T: Sample>(w: usize, h: usize, pixels: Vec<T>, orientation: Orientation) -> (r:
    Result<Vec<T>, DecodeError>)
    requires
        can_orient(orientation, pixels@.len() as int, w as int, h as int, 3),
    ensures
        match r {
            Ok(v) => v@ == oriented(pixels@, w as int, h as int, 3, orientation),
            Err(e) => e == no_memory::<T>("oriented RGB image", pixels@.len() as int),
        },
        !needs_memory(orientation) ==> r is Ok,
{
    rotate_pixels(w, h, 3, pixels, orientation, "oriented RGB image")
}

impl Samples {
    pub open spec fn len(self) -> int {
        match self {
            Samples::U8(s) => s.len() as int,
            Samples::U16(s) => s.len() as int,
        }
    }

    /// The error of turning a plane that there is no memory for.
    pub open spec fn turn_failure(self) -> DecodeError {
        match self {
            Samples::U8(s) => no_memory::<u8>("oriented luma image", s.len() as int),
            Samples::U16(s) => no_memory::<u16>("oriented luma image", s.len() as int),
        }
    }

    /// The samples of a plane, turned.
    pub open spec fn oriented(self, w: int, h: int, o: Orientation) -> Samples {
        match self {
            Samples::U8(s) => Samples::U8(oriented(s, w, h, 1, o)),
            Samples::U16(s) => Samples::U16(oriented(s, w, h, 1, o)),
        }
    }
}

impl Pixels {
    pub open spec fn len(self) -> int {
        match self {
            Pixels::Luma8(s) => s.len() as int,
            Pixels::Luma16(s) => s.len() as int,
            Pixels::Rgb8(s) => s.len() as int,
            Pixels::Rgb16(s) => s.len() as int,
        }
    }

    /// Samples per pixel.
    pub open spec fn channels(self) -> int {
        match self {
            Pixels::Luma8(_) | Pixels::Luma16(_) => 1,
            _ => 3,
        }
    }

    /// The error of turning an image that there is no memory for.
    pub open spec fn turn_failure(self) -> DecodeError {
        match self {
            Pixels::Luma8(s) => no_memory::<u8>("oriented luma image", s.len() as int),
            Pixels::Luma16(s) => no_memory::<u16>("oriented luma image", s.len() as int),
            Pixels::Rgb8(s) => no_memory::<u8>("oriented RGB image", s.len() as int),
            Pixels::Rgb16(s) => no_memory::<u16>("oriented RGB image", s.len() as int),
        }
    }

    /// The pixels of an image, turned.
    pub open spec fn oriented(self, w: int, h: int, o: Orientation) -> Pixels {
        match self {
            Pixels::Luma8(s) => Pixels::Luma8(oriented(s, w, h, 1, o)),
            Pixels::Luma16(s) => Pixels::Luma16(oriented(s, w, h, 1, o)),
            Pixels::Rgb8(s) => Pixels::Rgb8(oriented(s, w, h, 3, o)),
            Pixels::Rgb16(s) => Pixels::Rgb16(oriented(s, w, h, 3, o)),
        }
    }
}

/// Turns a plane of 8 or 16 bit samples.
pub fn rotate_sample_buf(samples: SampleBuf, width: u32, height: u32, orientation: Orientation) -> (r:
    Result<SampleBuf, DecodeError>)
    requires
        can_orient(orientation, samples@.len(), width as int, height as int, 1),
    ensures
        match r {
            Ok(v) => v@ == samples@.oriented(width as int, height as int, orientation),
            Err(e) => e == samples@.turn_failure(),
        },
        !needs_memory(orientation) ==> r is Ok,
{
    match samples {
        SampleBuf::U8(s) => match rotate_luma(width as usize, height as usize, s, orientation) {
            Ok(v) => Ok(SampleBuf::U8(v)),
            Err(e) => Err(e),
        },
        SampleBuf::U16(s) => match rotate_luma(width as usize, height as usize, s, orientation) {
            Ok(v) => Ok(SampleBuf::U16(v)),
            Err(e) => Err(e),
        },
    }
}

/// An image after turning.
pub struct OrientedImage {
    pub width: u32,
    pub height: u32,
    pub pixels: ImageBuffer,
    pub alpha: Option<SampleBuf>,
}

fn rotate_image(pixels: ImageBuffer, width: u32, height: u32, orientation: Orientation) -> (r: Result<
    ImageBuffer,
    DecodeError,
>)
    requires
        can_orient(
            orientation,
            pixels@.len(),
            width as int,
            height as int,
            pixels@.channels(),
        ),
    ensures
        match r {
            Ok(v) => v@ == pixels@.oriented(width as int, height as int, orientation),
            Err(e) => e == pixels@.turn_failure(),
        },
        !needs_memory(orientation) ==> r is Ok,
{
    let w: usize = width as usize;
    let h: usize = height as usize;
    match pixels {
        ImageBuffer::Luma8(s) => match rotate_luma(w, h, s, orientation) {
            Ok(v) => Ok(ImageBuffer::Luma8(v)),
            Err(e) => Err(e),
        },
        ImageBuffer::Luma16(s) => match rotate_luma(w, h, s, orientation) {
            Ok(v) => Ok(ImageBuffer::Luma16(v)),
            Err(e) => Err(e),
        },
        ImageBuffer::Rgb8(s) => match rotate_buf(w, h, s, orientation) {
            Ok(v) => Ok(ImageBuffer::Rgb8(v)),
            Err(e) => Err(e),
        },
        ImageBuffer::Rgb16(s) => match rotate_buf(w, h, s, orientation) {
            Ok(v) => Ok(ImageBuffer::Rgb16(v)),
            Err(e) => Err(e),
        },
    }
}

/// The samples of an optional plane, turned.
pub open spec fn oriented_option(s: Option<Samples>, w: int, h: int, o: Orientation) -> Option<
    Samples,
> {
    match s {
        Some(v) => Some(v.oriented(w, h, o)),
        None => None,
    }
}

/// `e` says that there is no memory to turn an optional plane.
pub open spec fn option_fails(s: Option<Samples>, e: DecodeError) -> bool {
    s matches Some(v) && e == v.turn_failure()
}

/// Turns an optional plane.
pub fn rotate_option(samples: Option<SampleBuf>, width: u32, height: u32, orientation: Orientation)
    -> (r: Result<Option<SampleBuf>, DecodeError>)
    requires
        samples matches Some(s) ==> can_orient(
            orientation,
            s@.len(),
            width as int,
            height as int,
            1,
        ),
    ensures
        match r {
            Ok(v) => opt_samples(v) == oriented_option(
                opt_samples(samples),
                width as int,
                height as int,
                orientation,
            ),
            Err(e) => option_fails(opt_samples(samples), e),
        },
        !needs_memory(orientation) ==> r is Ok,
{
    match samples {
        Some(s) => match rotate_sample_buf(s, width, height, orientation) {
            Ok(v) => Ok(Some(v)),
            Err(e) => Err(e),
        },
        None => Ok(None),
    }
}

/// `e` says that there is no memory to turn an image or its alpha plane.
pub open spec fn image_fails(pixels: Pixels, alpha: Option<Samples>, e: DecodeError) -> bool {
    e == pixels.turn_failure() || option_fails(alpha, e)
}

/// Turns an image and its alpha plane for display.
pub fn apply_orientation(
    width: u32,
    height: u32,
    pixels: ImageBuffer,
    alpha: Option<SampleBuf>,
    orientation: Orientation,
) -> (r: Result<OrientedImage, DecodeError>)
    requires
        can_orient(
            orientation,
            pixels@.len(),
            width as int,
            height as int,
            pixels@.channels(),
        ),
        alpha matches Some(s) ==> can_orient(
            orientation,
            s@.len(),
            width as int,
            height as int,
            1,
        ),
    ensures
        match r {
            Ok(v) => {
                &&& (v.width, v.height) == oriented_size(width, height, orientation)
                &&& v.pixels@ == pixels@.oriented(width as int, height as int, orientation)
                &&& opt_samples(v.alpha) == oriented_option(
                    opt_samples(alpha),
                    width as int,
                    height as int,
                    orientation,
                )
            },
            Err(e) => image_fails(pixels@, opt_samples(alpha), e),
        },
        !needs_memory(orientation) ==> r is Ok,
{
    let (oriented_width, oriented_height): (u32, u32) = oriented_dimensions(
        width,
        height,
        orientation,
    );
    let pixels: ImageBuffer = match rotate_image(pixels, width, height, orientation) {
        Ok(v) => v,
        Err(e) => return Err(e),
    };
    let alpha: Option<SampleBuf> = match rotate_option(alpha, width, height, orientation) {
        Ok(v) => v,
        Err(e) => return Err(e),
    };
    Ok(OrientedImage { width: oriented_width, height: oriented_height, pixels, alpha })
}

/// Position of the source pixel that the output shows at `(x, y)`.
pub open spec fn source_pixel(o: Orientation, w: int, h: int, x: int, y: int) -> (int, int) {
    match o {
        Orientation::Rotate180 => (w - 1 - x, h - 1 - y),
        Orientation::FlipH => (w - 1 - x, y),
        Orientation::FlipV => (x, h - 1 - y),
        Orientation::Rotate90 => (y, h - 1 - x),
        Orientation::Rotate270 => (w - 1 - y, x),
        Orientation::Transpose => (y, x),
        Orientation::Transverse => (w - 1 - y, h - 1 - x),
        Orientation::Normal => (x, y),
    }
}

/// Width of the output.
pub open spec fn output_width(o: Orientation, w: int, h: int) -> int {
    if exchanges_axes(o) {
        h
    } else {
        w
    }
}

/// Height of the output.
pub open spec fn output_height(o: Orientation, w: int, h: int) -> int {
    if exchanges_axes(o) {
        w
    } else {
        h
    }
}

/// A turned image shows each pixel of the source once: the output at `(x, y)` is the source at
/// `source_pixel`, sample by sample.
pub proof fn turning_moves_pixels<T: Sample>(
    s: Seq<T>,
    w: int,
    h: int,
    c: int,
    o: Orientation,
    x: int,
    y: int,
    k: int,
)
    requires
        0 < c,
        s.len() == w * h * c,
        0 <= x < output_width(o, w, h),
        0 <= y < output_height(o, w, h),
        0 <= k < c,
    ensures
        ({
            let (sx, sy) = source_pixel(o, w, h, x, y);
            let i = (y * output_width(o, w, h) + x) * c + k;
            &&& 0 <= sx < w
            &&& 0 <= sy < h
            &&& 0 <= i < s.len()
            &&& oriented(s, w, h, c, o)[i] == s[(sy * w + sx) * c + k]
        }),
{
    let ow = output_width(o, w, h);
    let oh = output_height(o, w, h);
    let (sx, sy) = source_pixel(o, w, h, x, y);
    let n = w * h;
    let len = n * c;
    let p = y * ow + x;
    let i = p * c + k;
    assert(w * h == h * w) by (nonlinear_arith);
    lemma_row_major(y, x, ow, oh);
    lemma_row_major(p, k, c, n);
    lemma_row_major(sy, sx, w, h);
    lemma_row_major(sy * w + sx, k, c, n);
    let pitch = w * c;
    assert(len == h * pitch) by (nonlinear_arith)
        requires
            len == n * c,
            n == h * w,
            pitch == w * c,
    ;
    assert(pitch > 0) by (nonlinear_arith)
        requires
            pitch == w * c,
            w > 0,
            c > 0,
    ;
    vstd::arithmetic::div_mod::lemma_fundamental_div_mod_converse(len, pitch, h, 0);
    vstd::arithmetic::div_mod::lemma_fundamental_div_mod_converse(len, c, n, 0);
    if o is FlipH || o is FlipV {
        lemma_row_major(x, k, c, w);
        assert(i == y * pitch + (x * c + k)) by (nonlinear_arith)
            requires
                i == p * c + k,
                p == y * w + x,
                pitch == w * c,
        ;
        lemma_row_major(y, x * c + k, pitch, h);
    }
    if o is FlipH {
        assert(y * pitch + (w - 1 - x) * c + k == (sy * w + sx) * c + k) by (nonlinear_arith)
            requires
                sy == y,
                sx == w - 1 - x,
                pitch == w * c,
        ;
    } else if o is FlipV {
        assert((h - 1 - y) * pitch + (x * c + k) == (sy * w + sx) * c + k) by (nonlinear_arith)
            requires
                sy == h - 1 - y,
                sx == x,
                pitch == w * c,
        ;
    } else if o is Rotate180 {
        assert(n - 1 - p == sy * w + sx) by (nonlinear_arith)
            requires
                p == y * w + x,
                n == w * h,
                sx == w - 1 - x,
                sy == h - 1 - y,
        ;
    } else if exchanges_axes(o) {
        lemma_row_major(y, x, h, w);
    }
}

/// Two buffers of the same picture agree if they agree at every pixel.
proof fn lemma_same_pixels<T: Sample>(a: Seq<T>, b: Seq<T>, w: int, h: int, c: int)
    requires
        0 < c,
        0 <= w,
        0 <= h,
        a.len() == w * h * c,
        b.len() == w * h * c,
        forall|x: int, y: int, k: int|
            0 <= x < w && 0 <= y < h && 0 <= k < c ==> #[trigger] pixel(a, w, c, x, y, k) == pixel(
                b,
                w,
                c,
                x,
                y,
                k,
            ),
    ensures
        a == b,
{
    assert forall|i: int| 0 <= i < a.len() implies a[i] == b[i] by {
        assert(w * h == h * w) by (nonlinear_arith);
        lemma_row_major_split(i, c, w * h);
        let p = i / c;
        assert(w > 0) by (nonlinear_arith)
            requires
                0 <= p < h * w,
                0 <= w,
                0 <= h,
        ;
        lemma_row_major_split(p, w, h);
        assert(pixel(a, w, c, p % w, p / w, i % c) == pixel(b, w, c, p % w, p / w, i % c));
    }
    assert(a =~= b);
}

/// Sample `k` of the pixel at `(x, y)`.
pub open spec fn pixel<T>(s: Seq<T>, w: int, c: int, x: int, y: int, k: int) -> T {
    s[(y * w + x) * c + k]
}

/// Undoes an orientation, on the picture that it leaves.
pub open spec fn inverse(o: Orientation) -> Orientation {
    match o {
        Orientation::Rotate90 => Orientation::Rotate270,
        Orientation::Rotate270 => Orientation::Rotate90,
        _ => o,
    }
}

/// Turning an image and turning it back gives the image: mirroring, transposing and half a turn
/// undo themselves, a quarter turn is undone by one the other way.
pub proof fn turning_back_restores<T: Sample>(s: Seq<T>, w: int, h: int, c: int, o: Orientation)
    requires
        0 < c,
        0 <= w,
        0 <= h,
        s.len() == w * h * c,
    ensures
        oriented(
            oriented(s, w, h, c, o),
            output_width(o, w, h),
            output_height(o, w, h),
            c,
            inverse(o),
        ) == s,
{
    let ow = output_width(o, w, h);
    let oh = output_height(o, w, h);
    let t = oriented(s, w, h, c, o);
    let u = oriented(t, ow, oh, c, inverse(o));
    assert(w * h == h * w) by (nonlinear_arith);
    assert forall|x: int, y: int, k: int|
        0 <= x < w && 0 <= y < h && 0 <= k < c implies #[trigger] pixel(u, w, c, x, y, k) == pixel(
        s,
        w,
        c,
        x,
        y,
        k,
    ) by {
        let (tx, ty) = source_pixel(inverse(o), ow, oh, x, y);
        turning_moves_pixels(t, ow, oh, c, inverse(o), x, y, k);
        turning_moves_pixels(s, w, h, c, o, tx, ty, k);
    }
    lemma_same_pixels(u, s, w, h, c);
}

/// Mirroring in both directions is half a turn.
pub proof fn both_mirrors_are_half_a_turn<T: Sample>(s: Seq<T>, w: int, h: int, c: int)
    requires
        0 < c,
        0 <= w,
        0 <= h,
        s.len() == w * h * c,
    ensures
        oriented(oriented(s, w, h, c, Orientation::FlipH), w, h, c, Orientation::FlipV) == oriented(
            s,
            w,
            h,
            c,
            Orientation::Rotate180,
        ),
{
    let t = oriented(s, w, h, c, Orientation::FlipH);
    let u = oriented(t, w, h, c, Orientation::FlipV);
    let v = oriented(s, w, h, c, Orientation::Rotate180);
    assert forall|x: int, y: int, k: int|
        0 <= x < w && 0 <= y < h && 0 <= k < c implies #[trigger] pixel(u, w, c, x, y, k) == pixel(
        v,
        w,
        c,
        x,
        y,
        k,
    ) by {
        turning_moves_pixels(t, w, h, c, Orientation::FlipV, x, y, k);
        turning_moves_pixels(s, w, h, c, Orientation::FlipH, x, h - 1 - y, k);
        turning_moves_pixels(s, w, h, c, Orientation::Rotate180, x, y, k);
    }
    lemma_same_pixels(u, v, w, h, c);
}

/// Two quarter turns the same way are half a turn.
pub proof fn two_quarter_turns_are_half_a_turn<T: Sample>(s: Seq<T>, w: int, h: int, c: int)
    requires
        0 < c,
        0 <= w,
        0 <= h,
        s.len() == w * h * c,
    ensures
        oriented(oriented(s, w, h, c, Orientation::Rotate90), h, w, c, Orientation::Rotate90)
            == oriented(s, w, h, c, Orientation::Rotate180),
{
    let t = oriented(s, w, h, c, Orientation::Rotate90);
    let u = oriented(t, h, w, c, Orientation::Rotate90);
    let v = oriented(s, w, h, c, Orientation::Rotate180);
    assert(w * h == h * w) by (nonlinear_arith);
    assert forall|x: int, y: int, k: int|
        0 <= x < w && 0 <= y < h && 0 <= k < c implies #[trigger] pixel(u, w, c, x, y, k) == pixel(
        v,
        w,
        c,
        x,
        y,
        k,
    ) by {
        turning_moves_pixels(t, h, w, c, Orientation::Rotate90, x, y, k);
        turning_moves_pixels(s, w, h, c, Orientation::Rotate90, y, w - 1 - x, k);
        turning_moves_pixels(s, w, h, c, Orientation::Rotate180, x, y, k);
    }
    lemma_same_pixels(u, v, w, h, c);
}

/// Transposing is a quarter turn and a mirror; transposing along the other diagonal is a quarter
/// turn the other way and the same mirror.
pub proof fn transposing_is_turning_and_mirroring<T: Sample>(s: Seq<T>, w: int, h: int, c: int)
    requires
        0 < c,
        0 <= w,
        0 <= h,
        s.len() == w * h * c,
    ensures
        oriented(oriented(s, w, h, c, Orientation::Rotate90), h, w, c, Orientation::FlipH)
            == oriented(s, w, h, c, Orientation::Transpose),
        oriented(oriented(s, w, h, c, Orientation::Rotate270), h, w, c, Orientation::FlipH)
            == oriented(s, w, h, c, Orientation::Transverse),
{
    lemma_mirrored_turn(s, w, h, c, Orientation::Rotate90, Orientation::Transpose);
    lemma_mirrored_turn(s, w, h, c, Orientation::Rotate270, Orientation::Transverse);
}

proof fn lemma_mirrored_turn<T: Sample>(
    s: Seq<T>,
    w: int,
    h: int,
    c: int,
    turn: Orientation,
    both: Orientation,
)
    requires
        0 < c,
        0 <= w,
        0 <= h,
        s.len() == w * h * c,
        turn is Rotate90 && both is Transpose || turn is Rotate270 && both is Transverse,
    ensures
        oriented(oriented(s, w, h, c, turn), h, w, c, Orientation::FlipH) == oriented(
            s,
            w,
            h,
            c,
            both,
        ),
{
    let t = oriented(s, w, h, c, turn);
    let u = oriented(t, h, w, c, Orientation::FlipH);
    let v = oriented(s, w, h, c, both);
    assert(w * h == h * w) by (nonlinear_arith);
    assert forall|x: int, y: int, k: int|
        0 <= x < h && 0 <= y < w && 0 <= k < c implies #[trigger] pixel(u, h, c, x, y, k) == pixel(
        v,
        h,
        c,
        x,
        y,
        k,
    ) by {
        turning_moves_pixels(t, h, w, c, Orientation::FlipH, x, y, k);
        turning_moves_pixels(s, w, h, c, turn, h - 1 - x, y, k);
        turning_moves_pixels(s, w, h, c, both, x, y, k);
    }
    lemma_same_pixels(u, v, h, w, c);
}

/// Quarter turns and reflections in a diagonal exchange width and height; the others keep them.
pub proof fn turning_sets_the_size(w: u32, h: u32, o: Orientation)
    ensures
        o is Rotate90 || o is Rotate270 || o is Transpose || o is Transverse ==> oriented_size(
            w,
            h,
            o,
        ) == (h, w),
        o is Normal || o is Rotate180 || o is FlipH || o is FlipV ==> oriented_size(w, h, o) == (
            w,
            h,
        ),
        oriented_size(w, h, o).0 == output_width(o, w as int, h as int),
        oriented_size(w, h, o).1 == output_height(o, w as int, h as int),
{
}

/// Grey images have one sample per pixel and colour images three, and turning moves whole pixels.
pub proof fn turning_moves_whole_pixels(
    p: Pixels,
    w: int,
    h: int,
    o: Orientation,
    x: int,
    y: int,
    k: int,
)
    requires
        p.len() == w * h * p.channels(),
        0 <= x < output_width(o, w, h),
        0 <= y < output_height(o, w, h),
        0 <= k < p.channels(),
    ensures
        p is Luma8 || p is Luma16 ==> p.channels() == 1,
        p is Rgb8 || p is Rgb16 ==> p.channels() == 3,
        ({
            let (sx, sy) = source_pixel(o, w, h, x, y);
            let i = (y * output_width(o, w, h) + x) * p.channels() + k;
            let j = (sy * w + sx) * p.channels() + k;
            match (p, p.oriented(w, h, o)) {
                (Pixels::Luma8(s), Pixels::Luma8(t)) => t.len() == s.len() && t[i] == s[j],
                (Pixels::Luma16(s), Pixels::Luma16(t)) => t.len() == s.len() && t[i] == s[j],
                (Pixels::Rgb8(s), Pixels::Rgb8(t)) => t.len() == s.len() && t[i] == s[j],
                (Pixels::Rgb16(s), Pixels::Rgb16(t)) => t.len() == s.len() && t[i] == s[j],
                _ => false,
            }
        }),
{
    match p {
        Pixels::Luma8(s) => turning_moves_pixels(s, w, h, 1, o, x, y, k),
        Pixels::Luma16(s) => turning_moves_pixels(s, w, h, 1, o, x, y, k),
        Pixels::Rgb8(s) => turning_moves_pixels(s, w, h, 3, o, x, y, k),
        Pixels::Rgb16(s) => turning_moves_pixels(s, w, h, 3, o, x, y, k),
    }
}

/// The samples of a grey plane are turned alike.
pub proof fn turning_moves_plane_samples(
    p: Samples,
    w: int,
    h: int,
    o: Orientation,
    x: int,
    y: int,
)
    requires
        p.len() == w * h,
        0 <= x < output_width(o, w, h),
        0 <= y < output_height(o, w, h),
    ensures
        ({
            let (sx, sy) = source_pixel(o, w, h, x, y);
            let i = y * output_width(o, w, h) + x;
            match (p, p.oriented(w, h, o)) {
                (Samples::U8(s), Samples::U8(t)) => t.len() == s.len() && t[i] == s[sy * w + sx],
                (Samples::U16(s), Samples::U16(t)) => t.len() == s.len() && t[i] == s[sy * w + sx],
                _ => false,
            }
        }),
        oriented_option(Some(p), w, h, o) == Some(p.oriented(w, h, o)),
        oriented_option(None, w, h, o) is None,
{
    assert(w * h * 1 == w * h);
    match p {
        Samples::U8(s) => turning_moves_pixels(s, w, h, 1, o, x, y, 0),
        Samples::U16(s) => turning_moves_pixels(s, w, h, 1, o, x, y, 0),
    }
}

/// Half a turn is done in place; the other orientations need a second buffer, of the image's size.
pub proof fn turning_needs_a_second_buffer(p: Pixels, s: Samples, o: Orientation)
    ensures
        needs_memory(o) <==> !(o is Normal) && !(o is Rotate180),
        s.turn_failure() == (match s {
            Samples::U8(v) => no_memory::<u8>("oriented luma image", v.len() as int),
            Samples::U16(v) => no_memory::<u16>("oriented luma image", v.len() as int),
        }),
        p.turn_failure() == (match p {
            Pixels::Luma8(v) => no_memory::<u8>("oriented luma image", v.len() as int),
            Pixels::Luma16(v) => no_memory::<u16>("oriented luma image", v.len() as int),
            Pixels::Rgb8(v) => no_memory::<u8>("oriented RGB image", v.len() as int),
            Pixels::Rgb16(v) => no_memory::<u16>("oriented RGB image", v.len() as int),
        }),
{
}

/// Complete images can be turned. One that lacks pixels cannot be turned by a quarter or reflected
/// in a diagonal.
pub proof fn complete_images_can_be_turned(o: Orientation, len: int, w: int, h: int, c: int)
    requires
        0 < w,
        0 < c,
        w * c <= usize::MAX,
    ensures
        w * h * c <= len ==> can_orient(o, len, w, h, c),
        o is Rotate90 || o is Rotate270 || o is Transpose || o is Transverse ==> (can_orient(
            o,
            len,
            w,
            h,
            c,
        ) <==> w * h * c <= len),
{
}

/// Samples that make no whole pixel or row: half a turn leaves them at the end, mirroring leaves
/// blanks, and so does every orientation that exchanges the axes behind the last pixel.
pub proof fn leftover_samples_are_not_turned<T: Sample>(
    s: Seq<T>,
    w: int,
    h: int,
    c: int,
    o: Orientation,
    i: int,
)
    requires
        0 < c,
        0 < w,
        0 <= i < s.len(),
    ensures
        oriented(s, w, h, c, o).len() == s.len(),
        o is Normal ==> oriented(s, w, h, c, o)[i] == s[i],
        o is Rotate180 && i / c >= s.len() as int / c ==> oriented(s, w, h, c, o)[i] == s[i],
        (o is FlipH || o is FlipV) && i / (w * c) >= s.len() as int / (w * c) ==> oriented(
            s,
            w,
            h,
            c,
            o,
        )[i] == T::of_zero(),
        (o is Rotate90 || o is Rotate270 || o is Transpose || o is Transverse) && i / c >= w * h
            ==> oriented(s, w, h, c, o)[i] == T::of_zero(),
{
}

} // verus!
