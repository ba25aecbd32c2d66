//! Sample adaptive offset: band offsets by sample value, edge offsets by local shape. Both read
//! the deblocked picture and write to a band of rows of the output picture.
use vstd::prelude::*;
use crate::arith::{
    asr, clip3, clip3_i32, lemma_asr_floor, lemma_asr_shrinks, lemma_p2_add, lemma_p2_mono,
    lemma_p2_pos, lemma_p2_values, lemma_row_major, lemma_stride_row, max_int, min_int, p2, pow2_i32,
    shr_i32,
};

verus! {

/// What an edge offset does with a sample that has a neighbour outside the picture.
#[derive(Clone, Copy, PartialEq, Eq, Structural)]
pub enum EdgeBorder {
    /// The missing neighbour counts as equal to the sample.
    Equal,
    /// The sample is left alone.
    Keep,
}

/// A rectangle `x0..x_end` by `y0..y_end` of the picture.
#[derive(Clone, Copy)]
pub struct Region {
    pub x0: usize,
    pub y0: usize,
    pub x_end: usize,
    pub y_end: usize,
}

impl Region {
    pub open spec fn contains(self, x: int, y: int) -> bool {
        self.x0 <= x < self.x_end && self.y0 <= y < self.y_end
    }

    /// The rectangle is empty or lies inside a `w` by `h` picture.
    pub open spec fn inside(self, w: int, h: int) -> bool {
        self.x0 >= self.x_end || self.y0 >= self.y_end || (self.x_end <= w && self.y_end <= h)
    }
}

/// The largest sample value of a bit depth.
pub open spec fn max_sample(bd: int) -> int {
    p2(bd) - 1
}

pub open spec fn depth_ok(bd: int) -> bool {
    0 <= bd <= 16
}

/// There are 32 bands.
pub open spec fn bands_ok(bd: int) -> bool {
    5 <= bd <= 16
}

/// Position of a sample's band after the first offset band, counted modulo 256.
pub open spec fn band_rel(s: int, band_pos: int, bd: int) -> int {
    (asr(s, bd - 5) % 256 - band_pos) % 256
}

/// The offset of the band that source sample `s` falls in; zero outside the four bands.
pub open spec fn band_offset(s: int, offsets: Seq<i32>, band_pos: int, bd: int) -> int {
    let rel = band_rel(s, band_pos, bd);
    if rel < 4 {
        offsets[rel] as int
    } else {
        0
    }
}

/// The output for source sample `s`: offset when it falls in one of the four bands, else
/// `old_value`.
pub open spec fn band_sample(
    old_value: int,
    s: int,
    offsets: Seq<i32>,
    band_pos: int,
    bd: int,
) -> int {
    let rel = band_rel(s, band_pos, bd);
    if rel < 4 {
        clip3(0, max_sample(bd), s + offsets[rel])
    } else {
        old_value
    }
}

/// Direction of the first neighbour of an edge class; the second lies opposite.
pub open spec fn edge_dx(eo_class: int) -> int {
    if eo_class == 1 {
        0
    } else {
        1
    }
}

pub open spec fn edge_dy(eo_class: int) -> int {
    if eo_class == 0 {
        0
    } else if eo_class == 1 || eo_class == 2 {
        1
    } else {
        -1
    }
}

pub open spec fn in_picture(w: int, h: int, x: int, y: int) -> bool {
    0 <= x < w && 0 <= y < h
}

/// The sample at `(x, y)`, or `s` outside the picture.
pub open spec fn sample_or(src: Seq<u16>, w: int, h: int, x: int, y: int, s: int) -> int {
    if in_picture(w, h, x, y) {
        src[y * w + x] as int
    } else {
        s
    }
}

pub open spec fn sign_of(d: int) -> int {
    if d > 0 {
        1
    } else if d < 0 {
        -1
    } else {
        0
    }
}

/// The offset for a sample between its two neighbours: valley, two half-valleys, two half-peaks,
/// peak; nothing on a slope or a plateau.
pub open spec fn edge_offset(s: int, n1: int, n2: int, offsets: Seq<i32>) -> int {
    let e = sign_of(s - n1) + sign_of(s - n2);
    if e == -2 {
        offsets[0] as int
    } else if e == -1 {
        offsets[1] as int
    } else if e == 1 {
        offsets[2] as int
    } else if e == 2 {
        offsets[3] as int
    } else {
        0
    }
}

/// The edge offset at `(x, y)`; zero where a missing neighbour keeps the sample as it is.
pub open spec fn edge_offset_at(
    src: Seq<u16>,
    w: int,
    h: int,
    x: int,
    y: int,
    offsets: Seq<i32>,
    eo_class: int,
    border: EdgeBorder,
) -> int {
    let s = src[y * w + x] as int;
    let dx = edge_dx(eo_class);
    let dy = edge_dy(eo_class);
    let whole = in_picture(w, h, x + dx, y + dy) && in_picture(w, h, x - dx, y - dy);
    if whole || border == EdgeBorder::Equal {
        edge_offset(
            s,
            sample_or(src, w, h, x + dx, y + dy, s),
            sample_or(src, w, h, x - dx, y - dy, s),
            offsets,
        )
    } else {
        0
    }
}

/// The output at `(x, y)` of an edge offset.
pub open spec fn edge_sample(
    old_value: int,
    src: Seq<u16>,
    w: int,
    h: int,
    x: int,
    y: int,
    offsets: Seq<i32>,
    eo_class: int,
    bd: int,
    border: EdgeBorder,
) -> int {
    let off = edge_offset_at(src, w, h, x, y, offsets, eo_class, border);
    if off != 0 {
        clip3(0, max_sample(bd), src[y * w + x] + off)
    } else {
        old_value
    }
}

/// Parameters of one coding-tree block component.
#[derive(Clone, Copy)]
pub struct SaoParams {
    /// 1: band offset, 2: edge offset, otherwise off.
    pub type_idx: u8,
    pub offsets: [i32; 4],
    pub band_pos: u8,
    pub eo_class: u8,
    pub border: EdgeBorder,
}

impl SaoParams {
    /// The output at `(x, y)` where the output held `old_value`.
    pub open spec fn sample(
        self,
        old_value: int,
        src: Seq<u16>,
        w: int,
        h: int,
        x: int,
        y: int,
        bd: int,
    ) -> int {
        if self.type_idx == 1 {
            band_sample(old_value, src[y * w + x] as int, self.offsets@, self.band_pos as int, bd)
        } else if self.type_idx == 2 {
            edge_sample(
                old_value,
                src,
                w,
                h,
                x,
                y,
                self.offsets@,
                self.eo_class as int,
                bd,
                self.border,
            )
        } else {
            old_value
        }
    }

    /// The offset at `(x, y)`.
    pub open spec fn offset_at(
        self,
        src: Seq<u16>,
        w: int,
        h: int,
        x: int,
        y: int,
        bd: int,
    ) -> int {
        if self.type_idx == 1 {
            band_offset(src[y * w + x] as int, self.offsets@, self.band_pos as int, bd)
        } else if self.type_idx == 2 {
            edge_offset_at(
                src,
                w,
                h,
                x,
                y,
                self.offsets@,
                self.eo_class as int,
                self.border,
            )
        } else {
            0
        }
    }

    /// Adding its offset to a sample of the region stays in 32 bits.
    pub open spec fn sums_fit(self, src: Seq<u16>, w: int, h: int, r: Region, bd: int) -> bool {
        forall|x: int, y: int|
            r.contains(x, y) ==> src[y * w + x] + #[trigger] self.offset_at(src, w, h, x, y, bd)
                <= i32::MAX
    }

    /// Where the piece of row `y` ends that is written together with column `x` of the region. A
    /// band offset goes by whole rows. An edge offset takes the first and the last column of the
    /// picture by themselves where it looks sideways, and the top and bottom row by eights where it
    /// looks up and down.
    pub open spec fn piece_end(self, w: int, h: int, r: Region, x: int, y: int) -> int {
        let eights = min_int(r.x0 + (x - r.x0) / 8 * 8 + 8, r.x_end as int);
        let inner_x0 = max_int(r.x0 as int, 1);
        let inner_x1 = min_int(r.x_end as int, w - 1);
        if self.type_idx != 2 {
            r.x_end as int
        } else if self.eo_class != 0 && (y == 0 || y == h - 1) {
            eights
        } else if self.eo_class == 1 {
            r.x_end as int
        } else if inner_x0 >= inner_x1 {
            eights
        } else if x < inner_x0 {
            inner_x0
        } else if x < inner_x1 {
            inner_x1
        } else {
            r.x_end as int
        }
    }

    /// Band index `j` is to be written: it belongs to the region, and its piece of the row lies in
    /// the band.
    pub open spec fn writes(
        self,
        w: int,
        h: int,
        band_y0: int,
        r: Region,
        len: int,
        j: int,
    ) -> bool {
        let (x, y) = (j % w, j / w + band_y0);
        &&& r.contains(x, y)
        &&& in_band(w, band_y0, self.piece_end(w, h, r, x, y), y, len)
    }
}

/// Row `y` of the picture lies up to column `x_end` in a band of `len` samples that starts at row
/// `band_y0`.
pub open spec fn in_band(w: int, band_y0: int, x_end: int, y: int, len: int) -> bool {
    band_y0 <= y && (y - band_y0) * w + x_end <= len
}

/// Band index `j` belongs to the region, and its row lies whole in the band.
pub open spec fn in_whole_row(w: int, band_y0: int, r: Region, len: int, j: int) -> bool {
    &&& r.contains(j % w, j / w + band_y0)
    &&& in_band(w, band_y0, r.x_end as int, j / w + band_y0, len)
}

fn max_sample_of(bd: u8) -> (r: i32)
    requires
        depth_ok(bd as int),
    ensures
        r == max_sample(bd as int),
        0 <= r <= 65535,
{
    proof {
        lemma_p2_values();
        lemma_p2_mono(bd as int, 16);
        lemma_p2_pos(bd as int);
    }
    pow2_i32(bd as u32) - 1
}

/// Band offset of one sample.
fn band_offset_sample(
    old_value: u16,
    s: u16,
    offsets: &[i32; 4],
    band_pos: u8,
    bd: u8,
    max_val: i32,
) -> (r: u16)
    requires
        bands_ok(bd as int),
        s + band_offset(s as int, offsets@, band_pos as int, bd as int) <= i32::MAX,
        max_val == max_sample(bd as int),
        0 <= max_val <= 65535,
    ensures
        r == band_sample(old_value as int, s as int, offsets@, band_pos as int, bd as int),
{
    proof {
        lemma_asr_shrinks(s as int, bd - 5);
    }
    let band: i32 = shr_i32(s as i32, (bd - 5) as u32) % 256;
    let rel: i32 = if band >= band_pos as i32 {
        band - band_pos as i32
    } else {
        band + 256 - band_pos as i32
    };
    if rel < 4 {
        clip3_i32(0, max_val, s as i32 + offsets[rel as usize]) as u16
    } else {
        old_value
    }
}

/// Edge offset of one sample whose neighbours are at hand.
fn edge_offset_sample(
    old_value: u16,
    s: u16,
    n1: u16,
    n2: u16,
    offsets: &[i32; 4],
    max_val: i32,
) -> (r: u16)
    requires
        s + edge_offset(s as int, n1 as int, n2 as int, offsets@) <= i32::MAX,
        0 <= max_val <= 65535,
    ensures
        r == (if edge_offset(s as int, n1 as int, n2 as int, offsets@) != 0 {
            clip3(
                0,
                max_val as int,
                s + edge_offset(s as int, n1 as int, n2 as int, offsets@),
            )
        } else {
            old_value as int
        }),
{
    let sign1: i32 = if s > n1 {
        1
    } else if s < n1 {
        -1
    } else {
        0
    };
    let sign2: i32 = if s > n2 {
        1
    } else if s < n2 {
        -1
    } else {
        0
    };
    let offset: i32 = match sign1 + sign2 + 2 {
        0 => offsets[0],
        1 => offsets[1],
        3 => offsets[2],
        4 => offsets[3],
        _ => 0,
    };
    if offset != 0 {
        clip3_i32(0, max_val, s as i32 + offset) as u16
    } else {
        old_value
    }
}

/// A picture and its size.
#[derive(Clone, Copy)]
pub struct Picture<'a> {
    pub data: &'a [u16],
    pub w: usize,
    pub h: usize,
}

impl<'a> Picture<'a> {
    pub open spec fn wf(self) -> bool {
        self.w * self.h <= self.data.len()
    }

    fn sample(self, x: usize, y: usize) -> (r: u16)
        requires
            self.wf(),
            x < self.w,
            y < self.h,
        ensures
            r == self.data@[y * self.w + x],
    {
        proof {
            lemma_row_major(y as int, x as int, self.w as int, self.h as int);
            assert(self.h * self.w == self.w * self.h) by (nonlinear_arith);
            assert(0 <= y * self.w) by (nonlinear_arith);
        }
        self.data[y * self.w + x]
    }

    /// The sample at `(x + dx, y + dy)` with steps of at most one, if it is in the picture.
    fn step(self, x: usize, y: usize, dx: i32, dy: i32) -> (r: Option<u16>)
        requires
            self.wf(),
            x < self.w,
            y < self.h,
            -1 <= dx <= 1,
            -1 <= dy <= 1,
        ensures
            match r {
                Some(v) => in_picture(self.w as int, self.h as int, x + dx, y + dy) && v
                    == self.data@[(y + dy) * self.w + (x + dx)],
                None => !in_picture(self.w as int, self.h as int, x + dx, y + dy),
            },
    {
        if (dx < 0 && x == 0) || (dy < 0 && y == 0) {
            return None;
        }
        if (dx > 0 && x == self.w - 1) || (dy > 0 && y == self.h - 1) {
            return None;
        }
        let nx: usize = if dx > 0 {
            x + 1
        } else if dx < 0 {
            x - 1
        } else {
            x
        };
        let ny: usize = if dy > 0 {
            y + 1
        } else if dy < 0 {
            y - 1
        } else {
            y
        };
        Some(self.sample(nx, ny))
    }
}

/// Edge offset of one sample with the picture border in view.
fn edge_offset_checked(
    old_value: u16,
    src: Picture<'_>,
    x: usize,
    y: usize,
    p: &SaoParams,
    bd: u8,
    max_val: i32,
) -> (r: u16)
    requires
        src.wf(),
        x < src.w,
        y < src.h,
        p.type_idx == 2,
        src.data@[y * src.w + x] + p.offset_at(
            src.data@,
            src.w as int,
            src.h as int,
            x as int,
            y as int,
            bd as int,
        ) <= i32::MAX,
        max_val == max_sample(bd as int),
        0 <= max_val <= 65535,
    ensures
        r == edge_sample(
            old_value as int,
            src.data@,
            src.w as int,
            src.h as int,
            x as int,
            y as int,
            p.offsets@,
            p.eo_class as int,
            bd as int,
            p.border,
        ),
{
    let (dx, dy) = edge_direction(p.eo_class);
    let s: u16 = src.sample(x, y);
    let first: Option<u16> = src.step(x, y, dx, dy);
    let second: Option<u16> = src.step(x, y, -dx, -dy);
    let whole: bool = first.is_some() && second.is_some();
    if !whole && p.border == EdgeBorder::Keep {
        return old_value;
    }
    let n1: u16 = match first {
        Some(v) => v,
        None => s,
    };
    let n2: u16 = match second {
        Some(v) => v,
        None => s,
    };
    edge_offset_sample(old_value, s, n1, n2, &p.offsets, max_val)
}

fn edge_direction(eo_class: u8) -> (r: (i32, i32))
    ensures
        r.0 == edge_dx(eo_class as int),
        r.1 == edge_dy(eo_class as int),
{
    match eo_class {
        0 => (1, 0),
        1 => (0, 1),
        2 => (1, 1),
        _ => (1, -1),
    }
}

/// Row `y` of a band holds the filtered samples of the columns `x0..x_end`; `row` is where the row
/// starts in the band, and nothing else has changed.
spec fn row_done(
    before: Seq<u16>,
    dst: Seq<u16>,
    src: Picture<'_>,
    row: int,
    y: int,
    x0: int,
    x_end: int,
    p: SaoParams,
    bd: int,
) -> bool {
    &&& dst.len() == before.len()
    &&& forall|j: int|
        0 <= j < dst.len() ==> #[trigger] dst[j] == (if row + x0 <= j < row + x_end {
            p.sample(
                before[j] as int,
                src.data@,
                src.w as int,
                src.h as int,
                j - row,
                y,
                bd,
            )
        } else {
            before[j] as int
        })
}

/// Adding its offset to the sample at `(x, y)` stays in 32 bits.
spec fn sum_fits(p: SaoParams, src: Picture<'_>, x: int, y: int, bd: int) -> bool {
    src.data@[y * src.w + x] + p.offset_at(src.data@, src.w as int, src.h as int, x, y, bd)
        <= i32::MAX
}

spec fn sums_in_row(p: SaoParams, src: Picture<'_>, y: int, x0: int, x_end: int, bd: int) -> bool {
    forall|x: int| x0 <= x < x_end ==> #[trigger] sum_fits(p, src, x, y, bd)
}

fn band_offset_row(
    dst: &mut [u16],
    src: Picture<'_>,
    row: usize,
    y: usize,
    x0: usize,
    x_end: usize,
    p: &SaoParams,
    bd: u8,
)
    requires
        src.wf(),
        p.type_idx == 1,
        y < src.h,
        x0 <= x_end <= src.w,
        row + x_end <= old(dst).len(),
        bands_ok(bd as int),
        sums_in_row(*p, src, y as int, x0 as int, x_end as int, bd as int),
    ensures
        row_done(
            old(dst)@,
            final(dst)@,
            src,
            row as int,
            y as int,
            x0 as int,
            x_end as int,
            *p,
            bd as int,
        ),
{
    let max_val: i32 = max_sample_of(bd);
    for x in x0..x_end
        invariant
            src.wf(),
            p.type_idx == 1,
            y < src.h,
            x0 <= x_end <= src.w,
            row + x_end <= old(dst).len(),
            bands_ok(bd as int),
            sums_in_row(*p, src, y as int, x0 as int, x_end as int, bd as int),
            max_val == max_sample(bd as int),
            0 <= max_val <= 65535,
            row_done(
                old(dst)@,
                dst@,
                src,
                row as int,
                y as int,
                x0 as int,
                x as int,
                *p,
                bd as int,
            ),
    {
        assert(sum_fits(*p, src, x as int, y as int, bd as int));
        let s: u16 = src.sample(x, y);
        let v: u16 = band_offset_sample(dst[row + x], s, &p.offsets, p.band_pos, bd, max_val);
        dst[row + x] = v;
    }
}

/// Edge offset of a piece of a row next to the picture border.
fn edge_offset_segment(
    dst: &mut [u16],
    src: Picture<'_>,
    row: usize,
    y: usize,
    x0: usize,
    x_end: usize,
    p: &SaoParams,
    bd: u8,
)
    requires
        src.wf(),
        p.type_idx == 2,
        y < src.h,
        x0 <= x_end <= src.w,
        row + x_end <= old(dst).len(),
        depth_ok(bd as int),
        sums_in_row(*p, src, y as int, x0 as int, x_end as int, bd as int),
    ensures
        row_done(
            old(dst)@,
            final(dst)@,
            src,
            row as int,
            y as int,
            x0 as int,
            x_end as int,
            *p,
            bd as int,
        ),
{
    let max_val: i32 = max_sample_of(bd);
    for x in x0..x_end
        invariant
            src.wf(),
            p.type_idx == 2,
            y < src.h,
            x0 <= x_end <= src.w,
            row + x_end <= old(dst).len(),
            depth_ok(bd as int),
            sums_in_row(*p, src, y as int, x0 as int, x_end as int, bd as int),
            max_val == max_sample(bd as int),
            0 <= max_val <= 65535,
            row_done(
                old(dst)@,
                dst@,
                src,
                row as int,
                y as int,
                x0 as int,
                x as int,
                *p,
                bd as int,
            ),
    {
        assert(sum_fits(*p, src, x as int, y as int, bd as int));
        let v: u16 = edge_offset_checked(dst[row + x], src, x, y, p, bd, max_val);
        dst[row + x] = v;
    }
}

/// Edge offset of the inner piece of a row, where both neighbours are always in the picture.
fn edge_offset_interior(
    dst: &mut [u16],
    src: Picture<'_>,
    row: usize,
    y: usize,
    x0: usize,
    x_end: usize,
    p: &SaoParams,
    bd: u8,
)
    requires
        src.wf(),
        p.type_idx == 2,
        x0 <= x_end,
        1 <= x0 || p.eo_class == 1,
        x_end < src.w || (p.eo_class == 1 && x_end <= src.w),
        y < src.h,
        p.eo_class == 0 || (1 <= y && y + 1 < src.h),
        row + x_end <= old(dst).len(),
        depth_ok(bd as int),
        sums_in_row(*p, src, y as int, x0 as int, x_end as int, bd as int),
    ensures
        row_done(
            old(dst)@,
            final(dst)@,
            src,
            row as int,
            y as int,
            x0 as int,
            x_end as int,
            *p,
            bd as int,
        ),
{
    let max_val: i32 = max_sample_of(bd);
    let eo: u8 = p.eo_class;
    let y1: usize = if eo == 0 {
        y
    } else if eo == 1 || eo == 2 {
        y + 1
    } else {
        y - 1
    };
    let y2: usize = if eo == 0 {
        y
    } else if eo == 1 || eo == 2 {
        y - 1
    } else {
        y + 1
    };
    for x in x0..x_end
        invariant
            src.wf(),
            p.type_idx == 2,
            eo == p.eo_class,
            1 <= x0 || eo == 1,
            x_end < src.w || (eo == 1 && x_end <= src.w),
            y < src.h,
            y1 == y + edge_dy(eo as int),
            y2 == y - edge_dy(eo as int),
            y1 < src.h,
            y2 < src.h,
            row + x_end <= old(dst).len(),
            depth_ok(bd as int),
            sums_in_row(*p, src, y as int, x0 as int, x_end as int, bd as int),
            max_val == max_sample(bd as int),
            0 <= max_val <= 65535,
            row_done(
                old(dst)@,
                dst@,
                src,
                row as int,
                y as int,
                x0 as int,
                x as int,
                *p,
                bd as int,
            ),
    {
        let x1: usize = if eo == 1 {
            x
        } else {
            x + 1
        };
        let x2: usize = if eo == 1 {
            x
        } else {
            x - 1
        };
        assert(sum_fits(*p, src, x as int, y as int, bd as int));
        let s: u16 = src.sample(x, y);
        let n1: u16 = src.sample(x1, y1);
        let n2: u16 = src.sample(x2, y2);
        let v: u16 = edge_offset_sample(dst[row + x], s, n1, n2, &p.offsets, max_val);
        dst[row + x] = v;
    }
}

/// Row `y` of a band holds the filtered samples of those pieces of the region that lie in the band;
/// `row` is where the row starts in the band, and nothing else has changed.
spec fn pieces_done(
    before: Seq<u16>,
    dst: Seq<u16>,
    src: Picture<'_>,
    row: int,
    y: int,
    r: Region,
    x_done: int,
    p: SaoParams,
    bd: int,
) -> bool {
    let (w, h) = (src.w as int, src.h as int);
    &&& dst.len() == before.len()
    &&& forall|j: int|
        0 <= j < dst.len() ==> #[trigger] dst[j] == (if row + r.x0 <= j < row + x_done && row
            + p.piece_end(w, h, r, j - row, y) <= dst.len() {
            p.sample(before[j] as int, src.data@, w, h, j - row, y, bd)
        } else {
            before[j] as int
        })
}

/// Edge offset of a row of the region by eights.
fn edge_offset_eights(
    dst: &mut [u16],
    src: Picture<'_>,
    row: usize,
    y: usize,
    r: Region,
    p: &SaoParams,
    bd: u8,
)
    requires
        src.wf(),
        p.type_idx == 2,
        y < src.h,
        r.x0 < r.x_end <= src.w,
        row + r.x_end <= usize::MAX,
        depth_ok(bd as int),
        sums_in_row(*p, src, y as int, r.x0 as int, r.x_end as int, bd as int),
        forall|x: int|
            r.x0 <= x < r.x_end ==> #[trigger] p.piece_end(
                src.w as int,
                src.h as int,
                r,
                x,
                y as int,
            ) == min_int(r.x0 + (x - r.x0) / 8 * 8 + 8, r.x_end as int),
    ensures
        pieces_done(
            old(dst)@,
            final(dst)@,
            src,
            row as int,
            y as int,
            r,
            r.x_end as int,
            *p,
            bd as int,
        ),
{
    let mut x: usize = r.x0;
    let ghost mut k: int = 0;
    while x < r.x_end
        invariant
            src.wf(),
            p.type_idx == 2,
            y < src.h,
            r.x0 <= x <= r.x_end <= src.w,
            0 <= k,
            x == min_int(r.x0 + k * 8, r.x_end as int),
            row + r.x_end <= usize::MAX,
            depth_ok(bd as int),
            sums_in_row(*p, src, y as int, r.x0 as int, r.x_end as int, bd as int),
            forall|x: int|
                r.x0 <= x < r.x_end ==> #[trigger] p.piece_end(
                    src.w as int,
                    src.h as int,
                    r,
                    x,
                    y as int,
                ) == min_int(r.x0 + (x - r.x0) / 8 * 8 + 8, r.x_end as int),
            pieces_done(
                old(dst)@,
                dst@,
                src,
                row as int,
                y as int,
                r,
                x as int,
                *p,
                bd as int,
            ),
        decreases r.x_end - x,
    {
        let end: usize = if r.x_end - x < 8 {
            r.x_end
        } else {
            x + 8
        };
        let ghost start = dst@;
        if row + end <= dst.len() {
            edge_offset_segment(dst, src, row, y, x, end, p, bd);
        }
        proof {
            assert forall|c: int| x <= c < end implies #[trigger] p.piece_end(
                src.w as int,
                src.h as int,
                r,
                c,
                y as int,
            ) == end by {
                assert((c - r.x0) / 8 == k);
            }
            assert forall|j: int| 0 <= j < dst@.len() implies #[trigger] dst@[j] == (if row + r.x0
                <= j < row + end && row + p.piece_end(
                src.w as int,
                src.h as int,
                r,
                j - row,
                y as int,
            ) <= dst@.len() {
                p.sample(
                    old(dst)@[j] as int,
                    src.data@,
                    src.w as int,
                    src.h as int,
                    j - row,
                    y as int,
                    bd as int,
                )
            } else {
                old(dst)@[j] as int
            }) by {
                assert(start[j] == start[j]);
            }
            k = k + 1;
        }
        x = end;
    }
}

/// Edge offset of a row of the region: the pieces at the picture border with checks, the inner
/// piece without. Pieces that do not lie in the band are skipped.
fn edge_offset_row(
    dst: &mut [u16],
    src: Picture<'_>,
    row: usize,
    y: usize,
    r: Region,
    p: &SaoParams,
    bd: u8,
)
    requires
        src.wf(),
        p.type_idx == 2,
        y < src.h,
        r.x0 < r.x_end <= src.w,
        row + r.x_end <= usize::MAX,
        depth_ok(bd as int),
        sums_in_row(*p, src, y as int, r.x0 as int, r.x_end as int, bd as int),
    ensures
        pieces_done(
            old(dst)@,
            final(dst)@,
            src,
            row as int,
            y as int,
            r,
            r.x_end as int,
            *p,
            bd as int,
        ),
{
    let eo: u8 = p.eo_class;
    if eo != 0 && (y == 0 || y == src.h - 1) {
        edge_offset_eights(dst, src, row, y, r, p, bd);
        return;
    }
    if eo == 1 {
        if row + r.x_end <= dst.len() {
            edge_offset_interior(dst, src, row, y, r.x0, r.x_end, p, bd);
        }
        return;
    }
    let inner_x0: usize = if r.x0 == 0 {
        1
    } else {
        r.x0
    };
    let inner_x1: usize = if r.x_end == src.w {
        src.w - 1
    } else {
        r.x_end
    };
    if inner_x0 >= inner_x1 {
        edge_offset_eights(dst, src, row, y, r, p, bd);
        return;
    }
    let ghost d0 = dst@;
    if row + inner_x0 <= dst.len() {
        edge_offset_segment(dst, src, row, y, r.x0, inner_x0, p, bd);
    }
    let ghost d1 = dst@;
    if row + inner_x1 <= dst.len() {
        edge_offset_interior(dst, src, row, y, inner_x0, inner_x1, p, bd);
    }
    let ghost d2 = dst@;
    if row + r.x_end <= dst.len() {
        edge_offset_segment(dst, src, row, y, inner_x1, r.x_end, p, bd);
    }
    proof {
        assert forall|j: int| 0 <= j < dst@.len() implies #[trigger] dst@[j] == (if row + r.x0 <= j
            < row + r.x_end && row + p.piece_end(src.w as int, src.h as int, r, j - row, y as int)
            <= dst@.len() {
            p.sample(
                d0[j] as int,
                src.data@,
                src.w as int,
                src.h as int,
                j - row,
                y as int,
                bd as int,
            )
        } else {
            d0[j] as int
        }) by {
            assert(d1[j] == d1[j] && d2[j] == d2[j]);
        }
    }
}

/// A band of output rows that starts at picture row `band_y0`, after the offsets of a region: what
/// the band holds of the region is offset, the rest is as before.
pub open spec fn band_offset_by(
    before: Seq<u16>,
    after: Seq<u16>,
    src: Seq<u16>,
    w: int,
    h: int,
    band_y0: int,
    r: Region,
    p: SaoParams,
    bd: int,
) -> bool {
    &&& after.len() == before.len()
    &&& forall|j: int|
        0 <= j < after.len() ==> #[trigger] after[j] == (if p.writes(
            w,
            h,
            band_y0,
            r,
            before.len() as int,
            j,
        ) {
            p.sample(before[j] as int, src, w, h, j % w, j / w + band_y0, bd)
        } else {
            before[j] as int
        })
}

/// Applies the offsets of one block component to the region, reading picture `src` and writing to
/// a band of output rows that starts at picture row `band_y0`. Rows of the region before the band,
/// and pieces of rows that do not lie in it, are skipped.
pub fn apply_sao_plane_banded(
    dst_band: &mut [u16],
    src: Picture<'_>,
    band_y0: usize,
    region: Region,
    p: &SaoParams,
    bd: u8,
)
    requires
        src.wf(),
        region.inside(src.w as int, src.h as int),
        depth_ok(bd as int),
        p.type_idx == 1 ==> bands_ok(bd as int),
        p.sums_fit(src.data@, src.w as int, src.h as int, region, bd as int),
    ensures
        band_offset_by(
            old(dst_band)@,
            final(dst_band)@,
            src.data@,
            src.w as int,
            src.h as int,
            band_y0 as int,
            region,
            *p,
            bd as int,
        ),
{
    if region.x_end <= region.x0 || region.y_end <= region.y0 {
        return;
    }
    if p.type_idx != 1 && p.type_idx != 2 {
        return;
    }
    let w: usize = src.w;
    let ghost before = dst_band@;
    for y in region.y0..region.y_end
        invariant
            w == src.w,
            src.wf(),
            0 < src.w,
            region.x0 < region.x_end <= w,
            region.y0 < region.y_end <= src.h,
            depth_ok(bd as int),
            p.type_idx == 1 ==> bands_ok(bd as int),
            p.sums_fit(src.data@, src.w as int, src.h as int, region, bd as int),
            p.type_idx == 1 || p.type_idx == 2,
            before == old(dst_band)@,
            dst_band.len() == before.len(),
            forall|j: int|
                0 <= j < before.len() ==> #[trigger] dst_band@[j] == (if p.writes(
                    w as int,
                    src.h as int,
                    band_y0 as int,
                    region,
                    before.len() as int,
                    j,
                ) && j / w as int + band_y0 < y {
                    p.sample(
                        before[j] as int,
                        src.data@,
                        w as int,
                        src.h as int,
                        j % w as int,
                        j / w as int + band_y0,
                        bd as int,
                    )
                } else {
                    before[j] as int
                }),
    {
        if y >= band_y0 {
            proof {
                assert((y - band_y0) * w + w <= src.w * src.h) by (nonlinear_arith)
                    requires
                        y - band_y0 < src.h,
                        w == src.w,
                        0 <= y - band_y0,
                ;
                assert(0 <= (y - band_y0) * w) by (nonlinear_arith)
                    requires
                        0 <= y - band_y0,
                ;
            }
            let row: usize = (y - band_y0) * w;
            let ghost start = dst_band@;
            proof {
                assert forall|x: int| region.x0 <= x < region.x_end implies #[trigger] sum_fits(
                    *p,
                    src,
                    x,
                    y as int,
                    bd as int,
                ) by {
                    assert(region.contains(x, y as int));
                }
            }
            if p.type_idx == 1 {
                if row + region.x_end <= dst_band.len() {
                    band_offset_row(dst_band, src, row, y, region.x0, region.x_end, p, bd);
                }
            } else {
                edge_offset_row(dst_band, src, row, y, region, p, bd);
            }
            assert(pieces_done(
                start,
                dst_band@,
                src,
                row as int,
                y as int,
                region,
                region.x_end as int,
                *p,
                bd as int,
            ));
            assert forall|j: int| 0 <= j < before.len() implies #[trigger] dst_band@[j] == (if p.writes(
                w as int,
                src.h as int,
                band_y0 as int,
                region,
                before.len() as int,
                j,
            ) && j / w as int + band_y0 < y + 1 {
                p.sample(
                    before[j] as int,
                    src.data@,
                    w as int,
                    src.h as int,
                    j % w as int,
                    j / w as int + band_y0,
                    bd as int,
                )
            } else {
                before[j] as int
            }) by {
                assert(start[j] == start[j]);
                lemma_stride_row(j, w as int, y - band_y0);
            }
        }
    }
}

/// A plane after the offsets of a region.
pub open spec fn plane_offset_by(
    before: Seq<u16>,
    after: Seq<u16>,
    src: Seq<u16>,
    w: int,
    h: int,
    r: Region,
    p: SaoParams,
    bd: int,
) -> bool {
    &&& after.len() == before.len()
    &&& forall|j: int|
        0 <= j < after.len() ==> #[trigger] after[j] == (if r.contains(j % w, j / w) {
            p.sample(before[j] as int, src, w, h, j % w, j / w, bd)
        } else {
            before[j] as int
        })
}

/// Applies the offsets of one block component to a region of a whole `w` by `h` plane. A neighbour
/// outside the plane counts as equal to the sample.
pub fn apply_sao_plane(
    dst: &mut [u16],
    src: &[u16],
    w: usize,
    h: usize,
    x0: usize,
    y0: usize,
    x_end: usize,
    y_end: usize,
    type_idx: u8,
    offsets: &[i32; 4],
    band_pos: u8,
    eo_class: u8,
    bd: u8,
)
    requires
        w * h <= src.len(),
        w * h <= old(dst).len(),
        (Region { x0, y0, x_end, y_end }).inside(w as int, h as int),
        depth_ok(bd as int),
        type_idx == 1 ==> bands_ok(bd as int),
        (SaoParams {
            type_idx,
            offsets: *offsets,
            band_pos,
            eo_class,
            border: EdgeBorder::Equal,
        }).sums_fit(src@, w as int, h as int, (Region { x0, y0, x_end, y_end }), bd as int),
    ensures
        plane_offset_by(
            old(dst)@,
            final(dst)@,
            src@,
            w as int,
            h as int,
            (Region { x0, y0, x_end, y_end }),
            (SaoParams {
                type_idx,
                offsets: *offsets,
                band_pos,
                eo_class,
                border: EdgeBorder::Equal,
            }),
            bd as int,
        ),
{
    let p: SaoParams = SaoParams {
        type_idx,
        offsets: *offsets,
        band_pos,
        eo_class,
        border: EdgeBorder::Equal,
    };
    let region: Region = Region { x0, y0, x_end, y_end };
    let picture: Picture<'_> = Picture { data: src, w, h };
    apply_sao_plane_banded(dst, picture, 0, region, &p, bd);
    proof {
        assert forall|j: int| 0 <= j < dst@.len() && region.contains(j % w as int, j / w as int)
            implies #[trigger] p.writes(
            w as int,
            h as int,
            0,
            region,
            dst@.len() as int,
            j,
        ) by {
            let r = j / w as int;
            assert(r * w + x_end <= w * h) by (nonlinear_arith)
                requires
                    0 <= r < h,
                    x_end <= w,
            ;
        }
    }
}

/// A band of rows that starts at picture row `band_y0`, after band offsets in place: the rows of a
/// region that the band holds whole are offset, the rest is as before.
pub open spec fn rows_offset_in_place(
    before: Seq<u16>,
    after: Seq<u16>,
    w: int,
    band_y0: int,
    r: Region,
    offsets: Seq<i32>,
    band_pos: int,
    bd: int,
) -> bool {
    &&& after.len() == before.len()
    &&& forall|j: int|
        0 <= j < after.len() ==> #[trigger] after[j] == (if in_whole_row(
            w,
            band_y0,
            r,
            before.len() as int,
            j,
        ) {
            band_sample(before[j] as int, before[j] as int, offsets, band_pos, bd)
        } else {
            before[j] as int
        })
}

/// Band offset in place, on a band of rows that starts at picture row `band_y0`. Rows of the region
/// before the band, or that do not lie whole in it, are skipped.
pub fn apply_sao_band_offset_banded_inplace(
    dst_band: &mut [u16],
    w: usize,
    band_y0: usize,
    region: Region,
    offsets: &[i32; 4],
    band_pos: u8,
    bd: u8,
)
    requires
        region.x_end <= w,
        bands_ok(bd as int),
        forall|j: int|
            0 <= j < old(dst_band).len() && in_whole_row(
                w as int,
                band_y0 as int,
                region,
                old(dst_band).len() as int,
                j,
            ) ==> (#[trigger] old(dst_band)@[j]) + band_offset(
                old(dst_band)@[j] as int,
                offsets@,
                band_pos as int,
                bd as int,
            ) <= i32::MAX,
    ensures
        rows_offset_in_place(
            old(dst_band)@,
            final(dst_band)@,
            w as int,
            band_y0 as int,
            region,
            offsets@,
            band_pos as int,
            bd as int,
        ),
{
    if w == 0 || region.x_end <= region.x0 || region.y_end <= region.y0 || region.y_end <= band_y0 {
        return;
    }
    let max_val: i32 = max_sample_of(bd);
    let ghost before = dst_band@;
    let mut y: usize = if region.y0 < band_y0 {
        band_y0
    } else {
        region.y0
    };
    while y < region.y_end
        invariant
            0 < w,
            region.x0 < region.x_end <= w,
            y >= band_y0,
            y >= region.y0,
            bands_ok(bd as int),
            forall|j: int|
                0 <= j < before.len() && in_whole_row(
                    w as int,
                    band_y0 as int,
                    region,
                    before.len() as int,
                    j,
                ) ==> (#[trigger] before[j]) + band_offset(
                    before[j] as int,
                    offsets@,
                    band_pos as int,
                    bd as int,
                ) <= i32::MAX,
            max_val == max_sample(bd as int),
            0 <= max_val <= 65535,
            before == old(dst_band)@,
            dst_band.len() == before.len(),
            forall|j: int|
                0 <= j < before.len() ==> #[trigger] dst_band@[j] == (if in_whole_row(
                    w as int,
                    band_y0 as int,
                    region,
                    before.len() as int,
                    j,
                ) && j / w as int + band_y0 < y {
                    band_sample(
                        before[j] as int,
                        before[j] as int,
                        offsets@,
                        band_pos as int,
                        bd as int,
                    )
                } else {
                    before[j] as int
                }),
        decreases region.y_end - y,
    {
        let start: Option<usize> = (y - band_y0).checked_mul(w);
        let ghost rows = dst_band@;
        if let Some(row) = start {
            if region.x_end <= dst_band.len() && row <= dst_band.len() - region.x_end {
                proof {
                    assert forall|j: int| row + region.x0 <= j < row + region.x_end implies (
                    #[trigger] rows[j]) + band_offset(
                        rows[j] as int,
                        offsets@,
                        band_pos as int,
                        bd as int,
                    ) <= i32::MAX by {
                        lemma_stride_row(j, w as int, y - band_y0);
                        assert(rows[j] == before[j]);
                    }
                }
                for x in region.x0..region.x_end
                    invariant
                        region.x0 < region.x_end <= w,
                        row + region.x_end <= dst_band.len(),
                        dst_band.len() == rows.len(),
                        bands_ok(bd as int),
                        forall|j: int|
                            row + region.x0 <= j < row + region.x_end ==> (#[trigger] rows[j])
                                + band_offset(
                                rows[j] as int,
                                offsets@,
                                band_pos as int,
                                bd as int,
                            ) <= i32::MAX,
                        max_val == max_sample(bd as int),
                        0 <= max_val <= 65535,
                        forall|j: int|
                            0 <= j < rows.len() ==> #[trigger] dst_band@[j] == (if row + region.x0
                                <= j < row + x {
                                band_sample(
                                    rows[j] as int,
                                    rows[j] as int,
                                    offsets@,
                                    band_pos as int,
                                    bd as int,
                                )
                            } else {
                                rows[j] as int
                            }),
                {
                    let s: u16 = dst_band[row + x];
                    assert(s == rows[row + x]);
                    let v: u16 = band_offset_sample(s, s, offsets, band_pos, bd, max_val);
                    dst_band[row + x] = v;
                }
            }
        }
        assert forall|j: int| 0 <= j < before.len() implies #[trigger] dst_band@[j] == (if in_whole_row(
            w as int,
            band_y0 as int,
            region,
            before.len() as int,
            j,
        ) && j / w as int + band_y0 < y + 1 {
            band_sample(
                before[j] as int,
                before[j] as int,
                offsets@,
                band_pos as int,
                bd as int,
            )
        } else {
            before[j] as int
        }) by {
            assert(rows[j] == rows[j]);
            lemma_stride_row(j, w as int, y - band_y0);
        }
        y = y + 1;
    }
}

/// Band offset in place on a whole plane.
pub fn apply_sao_band_offset_inplace(
    dst: &mut [u16],
    w: usize,
    region: Region,
    offsets: &[i32; 4],
    band_pos: u8,
    bd: u8,
)
    requires
        region.x_end <= w,
        bands_ok(bd as int),
        forall|j: int|
            0 <= j < old(dst).len() && in_whole_row(
                w as int,
                0,
                region,
                old(dst).len() as int,
                j,
            ) ==> (#[trigger] old(dst)@[j]) + band_offset(
                old(dst)@[j] as int,
                offsets@,
                band_pos as int,
                bd as int,
            ) <= i32::MAX,
    ensures
        rows_offset_in_place(
            old(dst)@,
            final(dst)@,
            w as int,
            0,
            region,
            offsets@,
            band_pos as int,
            bd as int,
        ),
{
    apply_sao_band_offset_banded_inplace(dst, w, 0, region, offsets, band_pos, bd);
}

/// Offset samples are valid samples, and an output that held a valid sample still does.
pub proof fn offsets_keep_the_sample_range(
    p: SaoParams,
    old_value: int,
    src: Seq<u16>,
    w: int,
    h: int,
    x: int,
    y: int,
    bd: int,
)
    requires
        depth_ok(bd),
        0 <= old_value <= max_sample(bd),
    ensures
        0 <= p.sample(old_value, src, w, h, x, y, bd) <= max_sample(bd),
{
    lemma_p2_pos(bd);
}

/// Where the output holds the source sample and all offsets are zero, nothing changes.
pub proof fn zero_offsets_change_nothing(
    p: SaoParams,
    src: Seq<u16>,
    w: int,
    h: int,
    x: int,
    y: int,
    bd: int,
)
    requires
        depth_ok(bd),
        forall|i: int| 0 <= i < 4 ==> #[trigger] p.offsets@[i] == 0,
        src[y * w + x] <= max_sample(bd),
    ensures
        p.sample(src[y * w + x] as int, src, w, h, x, y, bd) == src[y * w + x],
{
    let s = src[y * w + x] as int;
    let rel = band_rel(s, p.band_pos as int, bd);
    assert(0 <= rel);
    if rel < 4 {
        assert(p.offsets@[rel] == 0);
    }
    assert(p.offsets@[0] == 0 && p.offsets@[1] == 0 && p.offsets@[2] == 0 && p.offsets@[3] == 0);
}

/// The two neighbours of an edge class are interchangeable, and equal ones leave a plateau alone.
pub proof fn edge_offset_is_symmetric(s: int, n1: int, n2: int, offsets: Seq<i32>)
    ensures
        edge_offset(s, n1, n2, offsets) == edge_offset(s, n2, n1, offsets),
        edge_offset(s, s, s, offsets) == 0,
{
}

/// `v` is `s + off`, or the nearer end of the sample range where that lies outside it.
pub open spec fn moved_by(v: int, s: int, off: int, bd: int) -> bool {
    &&& 0 <= s + off < p2(bd) ==> v == s + off
    &&& s + off < 0 ==> v == 0
    &&& s + off >= p2(bd) ==> v == p2(bd) - 1
}

/// The sample range is cut into 32 equal bands. The four bands from `band_pos` on get one offset
/// each; samples of other bands keep the output as it was. Numbers count on from 255 to 0.
pub proof fn bands_cut_the_range_evenly(
    old_value: int,
    s: int,
    offsets: Seq<i32>,
    band_pos: u8,
    bd: int,
    b: int,
)
    requires
        bands_ok(bd),
        0 <= b < 256,
        b * p2(bd - 5) <= s < (b + 1) * p2(bd - 5),
    ensures
        32 * p2(bd - 5) == p2(bd),
        s == p2(bd) - 1 ==> b == 31,
        if band_pos <= b < band_pos + 4 {
            &&& moved_by(
                band_sample(old_value, s, offsets, band_pos as int, bd),
                s,
                offsets[b - band_pos] as int,
                bd,
            )
            &&& band_offset(s, offsets, band_pos as int, bd) == offsets[b - band_pos]
        } else if b + 256 < band_pos + 4 {
            &&& moved_by(
                band_sample(old_value, s, offsets, band_pos as int, bd),
                s,
                offsets[b + 256 - band_pos] as int,
                bd,
            )
            &&& band_offset(s, offsets, band_pos as int, bd) == offsets[b + 256 - band_pos]
        } else {
            &&& band_sample(old_value, s, offsets, band_pos as int, bd) == old_value
            &&& band_offset(s, offsets, band_pos as int, bd) == 0
        },
{
    let d = p2(bd - 5);
    lemma_p2_pos(bd - 5);
    lemma_p2_pos(bd);
    lemma_p2_add(bd - 5, 5);
    lemma_p2_values();
    lemma_asr_floor(s, bd - 5);
    let q = asr(s, bd - 5);
    assert(q == b) by (nonlinear_arith)
        requires
            q * d <= s < (q + 1) * d,
            b * d <= s < (b + 1) * d,
            d >= 1,
    ;
    if s == p2(bd) - 1 {
        assert(b == 31) by (nonlinear_arith)
            requires
                b * d <= s < (b + 1) * d,
                s == 32 * d - 1,
                d >= 1,
        ;
    }
}

/// The two neighbours that an edge class compares with: left and right, above and below, or the two
/// on a diagonal.
pub open spec fn edge_neighbours(
    eo_class: u8,
    x: int,
    y: int,
    ax: int,
    ay: int,
    bx: int,
    by: int,
) -> bool {
    &&& ax + bx == 2 * x
    &&& ay + by == 2 * y
    &&& eo_class == 0 ==> ax == x + 1 && ay == y
    &&& eo_class == 1 ==> ax == x && ay == y + 1
    &&& eo_class == 2 ==> ax == x + 1 && ay == y + 1
    &&& eo_class >= 3 ==> ax == x + 1 && ay == y - 1
}

/// Edge offsets go by the shape around a sample: the first offset in a valley, the second at the
/// foot of a slope, the third at its top, the fourth on a peak, none on a plain slope or a plateau.
pub proof fn edge_offsets_follow_the_shape(
    p: SaoParams,
    old_value: int,
    src: Seq<u16>,
    w: int,
    h: int,
    x: int,
    y: int,
    bd: int,
    ax: int,
    ay: int,
    bx: int,
    by: int,
)
    requires
        p.type_idx == 2,
        depth_ok(bd),
        edge_neighbours(p.eo_class, x, y, ax, ay, bx, by),
        0 <= ax < w && 0 <= ay < h,
        0 <= bx < w && 0 <= by < h,
    ensures
        ({
            let (s, a, b) = (
                src[y * w + x] as int,
                src[ay * w + ax] as int,
                src[by * w + bx] as int,
            );
            let v = p.sample(old_value, src, w, h, x, y, bd);
            let o = p.offsets@;
            if s < a && s < b {
                o[0] != 0 && moved_by(v, s, o[0] as int, bd) || o[0] == 0 && v == old_value
            } else if s <= a && s <= b && (s < a || s < b) {
                o[1] != 0 && moved_by(v, s, o[1] as int, bd) || o[1] == 0 && v == old_value
            } else if s > a && s > b {
                o[3] != 0 && moved_by(v, s, o[3] as int, bd) || o[3] == 0 && v == old_value
            } else if s >= a && s >= b && (s > a || s > b) {
                o[2] != 0 && moved_by(v, s, o[2] as int, bd) || o[2] == 0 && v == old_value
            } else {
                v == old_value
            }
        }),
{
    lemma_p2_pos(bd);
}

/// A sample at the border of the picture, with one neighbour of an edge class outside, is left
/// alone or goes by the neighbour that is there: the second offset below it, the third above it.
pub proof fn edge_offsets_at_the_border(
    p: SaoParams,
    old_value: int,
    src: Seq<u16>,
    w: int,
    h: int,
    x: int,
    y: int,
    bd: int,
    ax: int,
    ay: int,
    bx: int,
    by: int,
)
    requires
        p.type_idx == 2,
        depth_ok(bd),
        edge_neighbours(p.eo_class, x, y, ax, ay, bx, by),
        !(0 <= ax < w && 0 <= ay < h && 0 <= bx < w && 0 <= by < h),
    ensures
        p.border is Keep ==> p.sample(old_value, src, w, h, x, y, bd) == old_value,
        p.border is Equal ==> ({
            let s = src[y * w + x] as int;
            let v = p.sample(old_value, src, w, h, x, y, bd);
            let o = p.offsets@;
            let n = if 0 <= ax < w && 0 <= ay < h {
                src[ay * w + ax] as int
            } else if 0 <= bx < w && 0 <= by < h {
                src[by * w + bx] as int
            } else {
                s
            };
            if s < n {
                o[1] != 0 && moved_by(v, s, o[1] as int, bd) || o[1] == 0 && v == old_value
            } else if s > n {
                o[2] != 0 && moved_by(v, s, o[2] as int, bd) || o[2] == 0 && v == old_value
            } else {
                v == old_value
            }
        }),
{
    lemma_p2_pos(bd);
}

/// Band parameters move samples by their band, and parameters of neither kind move none.
pub proof fn offsets_go_by_their_kind(
    p: SaoParams,
    old_value: int,
    src: Seq<u16>,
    w: int,
    h: int,
    x: int,
    y: int,
    bd: int,
)
    ensures
        p.type_idx == 1 ==> p.sample(old_value, src, w, h, x, y, bd) == band_sample(
            old_value,
            src[y * w + x] as int,
            p.offsets@,
            p.band_pos as int,
            bd,
        ),
        p.type_idx != 1 && p.type_idx != 2 ==> p.sample(old_value, src, w, h, x, y, bd)
            == old_value,
{
}

/// Position `(x, y)` of the picture is sample `(y - band_y0) * w + x` of a band that starts at row
/// `band_y0`. It is written only inside the region, and always there if the band holds the region's
/// part of the row.
pub proof fn regions_are_written_in_place(
    p: SaoParams,
    w: int,
    h: int,
    band_y0: int,
    r: Region,
    len: int,
    x: int,
    y: int,
)
    requires
        r.inside(w, h),
        0 <= x < w,
        band_y0 <= y,
    ensures
        ({
            let j = (y - band_y0) * w + x;
            let inside = r.x0 <= x < r.x_end && r.y0 <= y < r.y_end;
            &&& j % w == x
            &&& j / w + band_y0 == y
            &&& !inside ==> !p.writes(w, h, band_y0, r, len, j)
            &&& inside && (y - band_y0) * w + r.x_end <= len ==> p.writes(
                w,
                h,
                band_y0,
                r,
                len,
                j,
            )
            &&& inside && (y - band_y0) * w + x >= len ==> !p.writes(w, h, band_y0, r, len, j)
            &&& in_whole_row(w, band_y0, r, len, j) == (inside && (y - band_y0) * w + r.x_end
                <= len)
        }),
{
    lemma_row_major(y - band_y0, x, w, y - band_y0 + 1);
}

/// After the offsets of a region, sample `(x, y)` of the picture holds its offset value if it lies
/// in the region and in a row that the band has whole; outside the region it holds what it held.
pub proof fn offset_bands_hold_their_samples(
    before: Seq<u16>,
    after: Seq<u16>,
    src: Seq<u16>,
    w: int,
    h: int,
    band_y0: int,
    r: Region,
    p: SaoParams,
    bd: int,
    x: int,
    y: int,
)
    requires
        r.inside(w, h),
        band_offset_by(before, after, src, w, h, band_y0, r, p, bd),
        0 <= x < w,
        band_y0 <= y,
        (y - band_y0) * w + x < before.len(),
    ensures
        ({
            let j = (y - band_y0) * w + x;
            let inside = r.x0 <= x < r.x_end && r.y0 <= y < r.y_end;
            &&& after.len() == before.len()
            &&& !inside ==> after[j] == before[j]
            &&& inside && (y - band_y0) * w + r.x_end <= before.len() ==> after[j] == p.sample(
                before[j] as int,
                src,
                w,
                h,
                x,
                y,
                bd,
            )
        }),
{
    regions_are_written_in_place(p, w, h, band_y0, r, before.len() as int, x, y);
    assert(0 <= (y - band_y0) * w) by (nonlinear_arith)
        requires
            0 <= y - band_y0,
            0 <= w,
    ;
}

/// The same for a whole plane, and for band offsets in place.
pub proof fn offset_planes_hold_their_samples(
    before: Seq<u16>,
    after: Seq<u16>,
    src: Seq<u16>,
    w: int,
    h: int,
    r: Region,
    p: SaoParams,
    bd: int,
    x: int,
    y: int,
)
    requires
        plane_offset_by(before, after, src, w, h, r, p, bd),
        0 <= x < w,
        0 <= y,
        y * w + x < before.len(),
    ensures
        after.len() == before.len(),
        after[y * w + x] == (if r.x0 <= x < r.x_end && r.y0 <= y < r.y_end {
            p.sample(before[y * w + x] as int, src, w, h, x, y, bd)
        } else {
            before[y * w + x] as int
        }),
{
    lemma_row_major(y, x, w, y + 1);
}

/// Band offsets in place change the rows of the region that the band has whole, sample by sample.
pub proof fn bands_are_offset_in_place(
    before: Seq<u16>,
    after: Seq<u16>,
    w: int,
    band_y0: int,
    r: Region,
    offsets: Seq<i32>,
    band_pos: u8,
    bd: int,
    x: int,
    y: int,
)
    requires
        rows_offset_in_place(before, after, w, band_y0, r, offsets, band_pos as int, bd),
        0 <= x < w,
        band_y0 <= y,
        (y - band_y0) * w + x < before.len(),
    ensures
        ({
            let j = (y - band_y0) * w + x;
            &&& after.len() == before.len()
            &&& after[j] == (if r.x0 <= x < r.x_end && r.y0 <= y < r.y_end && (y - band_y0) * w
                + r.x_end <= before.len() {
                band_sample(before[j] as int, before[j] as int, offsets, band_pos as int, bd)
            } else {
                before[j] as int
            })
        }),
{
    lemma_row_major(y - band_y0, x, w, y - band_y0 + 1);
}

/// Where a band ends inside a row, the row is written in pieces, each whole or not at all. A row of
/// band offsets is one piece. So is a row of edge offsets that look up and down, between the first
/// and the last row of the picture; those that look sideways set the first and the last column
/// apart. Where every sample may lack a neighbour the pieces are eights, counted from the start of
/// the region.
pub proof fn rows_are_written_in_pieces(p: SaoParams, w: int, h: int, r: Region, x: int, y: int)
    requires
        r.x0 <= x < r.x_end <= w,
    ensures
        ({
            let end = p.piece_end(w, h, r, x, y);
            let first = if r.x0 > 0 {
                r.x0 as int
            } else {
                1
            };
            let last = if r.x_end < w {
                r.x_end as int
            } else {
                w - 1
            };
            let outer = p.eo_class != 0 && (y == 0 || y == h - 1);
            let eights = p.type_idx == 2 && (outer || (p.eo_class != 1 && first >= last));
            &&& x < end <= r.x_end
            &&& p.type_idx != 2 ==> end == r.x_end
            &&& eights ==> end <= x + 8 && (end == r.x_end || (end - r.x0) % 8 == 0)
            &&& p.type_idx == 2 && !eights && p.eo_class == 1 ==> end == r.x_end
            &&& p.type_idx == 2 && !eights && p.eo_class != 1 ==> {
                &&& x < first ==> end == first
                &&& first <= x < last ==> end == last
                &&& x >= last ==> end == r.x_end
            }
        }),
        in_band(w, 0, p.piece_end(w, h, r, x, y), y, (y + 1) * w) <== 0 <= y,
{
    let k = (x - r.x0) / 8;
    assert(r.x0 + 8 * k <= x < r.x0 + 8 * k + 8);
    assert((y + 1) * w == y * w + w) by (nonlinear_arith);
}

} // verus!
