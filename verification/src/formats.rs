//! Sample formats and the buffers that hold planes and images.
use vstd::prelude::*;
use crate::arith::{lemma_row_major, lemma_row_major_split};
use crate::error::DecodeError;
use crate::sample::{no_memory, try_vec, Sample};

verus! {

/// Bits per sample.
#[derive(Clone, Copy, Debug, PartialEq, Eq, Structural)]
pub enum BitDepth {
    Eight,
    Ten,
    Twelve,
}

impl BitDepth {
    pub open spec fn count(self) -> int {
        match self {
            BitDepth::Eight => 8,
            BitDepth::Ten => 10,
            BitDepth::Twelve => 12,
        }
    }

    /// The depth that a signalled number of bits stands for: 10 and 12 are themselves, anything
    /// else is taken as 8.
    pub open spec fn signalled(bits: int) -> BitDepth {
        if bits == 10 {
            BitDepth::Ten
        } else if bits == 12 {
            BitDepth::Twelve
        } else {
            BitDepth::Eight
        }
    }

    /// The depth that a signalled number of bits stands for.
    pub fn from_signalled(bits: u8) -> (r: Self)
        ensures
            r == BitDepth::signalled(bits as int),
    {
        match bits {
            10 => BitDepth::Ten,
            12 => BitDepth::Twelve,
            _ => BitDepth::Eight,
        }
    }

    /// Number of bits.
    pub fn bits(self) -> (r: u32)
        ensures
            r == self.count(),
    {
        match self {
            BitDepth::Eight => 8,
            BitDepth::Ten => 10,
            BitDepth::Twelve => 12,
        }
    }

    /// Number of bits beyond eight.
    pub fn minus8(self) -> (r: u32)
        ensures
            r == self.count() - 8,
    {
        self.bits() - 8
    }
}

/// Chroma sampling.
#[derive(Clone, Copy, Debug, PartialEq, Eq, Structural)]
pub enum ChromaFormat {
    Monochrome,
    Yuv420,
    Yuv422,
    Yuv444,
}

impl ChromaFormat {
    /// Luma samples per chroma sample in a row.
    pub open spec fn step_x(self) -> int {
        match self {
            ChromaFormat::Yuv420 | ChromaFormat::Yuv422 => 2,
            _ => 1,
        }
    }

    /// Luma samples per chroma sample in a column.
    pub open spec fn step_y(self) -> int {
        match self {
            ChromaFormat::Yuv420 => 2,
            _ => 1,
        }
    }

    pub fn is_monochrome(self) -> (r: bool)
        ensures
            r == (self is Monochrome),
    {
        match self {
            ChromaFormat::Monochrome => true,
            _ => false,
        }
    }

    pub fn sub_w(self) -> (r: usize)
        ensures
            r == self.step_x(),
            1 <= r <= 2,
    {
        match self {
            ChromaFormat::Yuv420 | ChromaFormat::Yuv422 => 2,
            _ => 1,
        }
    }

    pub fn sub_h(self) -> (r: usize)
        ensures
            r == self.step_y(),
            1 <= r <= 2,
    {
        match self {
            ChromaFormat::Yuv420 => 2,
            _ => 1,
        }
    }
}

/// Quotient rounded up.
pub open spec fn ceil_div(a: int, b: int) -> int {
    (a + b - 1) / b
}

/// Quotient rounded up.
pub fn div_ceil(a: usize, b: usize) -> (r: usize)
    requires
        b > 0,
    ensures
        r == ceil_div(a as int, b as int),
        r <= a,
{
    let q: usize = a / b;
    let rem: usize = a % b;
    proof {
        let (a, b) = (a as int, b as int);
        vstd::arithmetic::div_mod::lemma_fundamental_div_mod(a, b);
        let q = a / b;
        let m = a % b;
        assert(b * q == q * b) by (nonlinear_arith);
        if m == 0 {
            vstd::arithmetic::div_mod::lemma_fundamental_div_mod_converse(a + b - 1, b, q, b - 1);
        } else {
            assert(b * (q + 1) == b * q + b) by (nonlinear_arith);
            assert((q + 1) * b == q * b + b) by (nonlinear_arith);
            vstd::arithmetic::div_mod::lemma_fundamental_div_mod_converse(
                a + b - 1,
                b,
                q + 1,
                m - 1,
            );
        }
        assert(q + if m == 0 {
            0int
        } else {
            1
        } <= a) by (nonlinear_arith)
            requires
                b > 0,
                a == b * q + m,
                0 <= m < b,
                q >= 0,
        ;
    }
    if rem == 0 {
        q
    } else {
        q + 1
    }
}

/// Samples of a plane without padding.
#[derive(Clone, Debug)]
pub enum SampleBuf {
    U8(Vec<u8>),
    U16(Vec<u16>),
}

/// What a buffer of samples holds.
pub enum Samples {
    U8(Seq<u8>),
    U16(Seq<u16>),
}

impl View for SampleBuf {
    type V = Samples;

    open spec fn view(&self) -> Samples {
        match self {
            SampleBuf::U8(v) => Samples::U8(v@),
            SampleBuf::U16(v) => Samples::U16(v@),
        }
    }
}

/// Interleaved pixels.
#[derive(Clone, Debug)]
pub enum ImageBuffer {
    Luma8(Vec<u8>),
    Luma16(Vec<u16>),
    Rgb8(Vec<u8>),
    Rgb16(Vec<u16>),
}

/// What an image buffer holds.
pub enum Pixels {
    Luma8(Seq<u8>),
    Luma16(Seq<u16>),
    Rgb8(Seq<u8>),
    Rgb16(Seq<u16>),
}

impl View for ImageBuffer {
    type V = Pixels;

    open spec fn view(&self) -> Pixels {
        match self {
            ImageBuffer::Luma8(v) => Pixels::Luma8(v@),
            ImageBuffer::Luma16(v) => Pixels::Luma16(v@),
            ImageBuffer::Rgb8(v) => Pixels::Rgb8(v@),
            ImageBuffer::Rgb16(v) => Pixels::Rgb16(v@),
        }
    }
}

/// Where the samples of a plane lie in its buffer.
#[derive(Clone, Copy, Debug, PartialEq, Eq, Structural)]
pub struct PlaneLayout {
    pub width: usize,
    pub height: usize,
    pub stride: usize,
    pub offset: usize,
}

impl PlaneLayout {
    /// Every sample lies in a buffer of `len` samples, rows apart from each other.
    pub open spec fn fits(self, len: int) -> bool {
        self.width > 0 && self.height > 0 ==> {
            &&& self.width <= self.stride
            &&& self.offset + (self.height - 1) * self.stride + self.width <= len
        }
    }

    /// Position of a sample in the buffer.
    pub open spec fn index(self, x: int, y: int) -> int {
        self.offset + y * self.stride + x
    }
}

/// A plane in a buffer of its own, with a pitch and an offset.
#[derive(Clone, Debug)]
pub struct PlaneBuffer<T> {
    pub data: Vec<T>,
    pub layout: PlaneLayout,
}

/// A plane as its size and its samples in row order.
#[verifier::ext_equal]
pub struct Raster<T> {
    pub width: int,
    pub height: int,
    pub samples: Seq<T>,
}

impl<T: Sample> View for PlaneBuffer<T> {
    type V = Raster<T>;

    open spec fn view(&self) -> Raster<T> {
        Raster {
            width: self.layout.width as int,
            height: self.layout.height as int,
            samples: self.raster(),
        }
    }
}

impl<T: Sample> PlaneBuffer<T> {
    pub open spec fn wf(self) -> bool {
        self.layout.fits(self.data@.len() as int)
    }

    /// The samples of the plane in row order.
    pub open spec fn raster(self) -> Seq<T> {
        let l = self.layout;
        Seq::new(
            (l.width * l.height) as nat,
            |i: int| self.data@[l.index(i % l.width as int, i / l.width as int)],
        )
    }

    /// A plane in a buffer of its own.
    pub fn from_parts(data: Vec<T>, layout: PlaneLayout) -> (r: Self)
        ensures
            r.data@ == data@,
            r.layout == layout,
    {
        PlaneBuffer { data, layout }
    }

    /// A plane without padding.
    pub fn tight(data: Vec<T>, width: usize, height: usize) -> (r: Self)
        requires
            data@.len() == width * height,
        ensures
            r.wf(),
            r@ == (Raster { width: width as int, height: height as int, samples: data@ }),
            r.layout == (PlaneLayout { width, height, stride: width, offset: 0 }),
            r.data@ == data@,
    {
        let r: PlaneBuffer<T> = PlaneBuffer {
            data,
            layout: PlaneLayout { width, height, stride: width, offset: 0 },
        };
        proof {
            let (w, h) = (width as int, height as int);
            if w > 0 && h > 0 {
                assert((h - 1) * w + w == w * h) by (nonlinear_arith);
            }
            assert forall|i: int| 0 <= i < data@.len() implies r.raster()[i] == data@[i] by {
                assert(w > 0) by (nonlinear_arith)
                    requires
                        0 <= i < w * h,
                        w >= 0,
                ;
                assert(w * h == h * w) by (nonlinear_arith);
                lemma_row_major_split(i, w, h);
            }
            assert(r.raster() =~= data@);
        }
        r
    }

    pub fn width(&self) -> (r: usize)
        ensures
            r == self.layout.width,
    {
        self.layout.width
    }

    pub fn height(&self) -> (r: usize)
        ensures
            r == self.layout.height,
    {
        self.layout.height
    }

    /// The buffer holds the samples of the plane and nothing else.
    pub open spec fn is_tight(self) -> bool {
        &&& self.layout.offset == 0
        &&& self.layout.stride == self.layout.width
        &&& self.data@.len() == self.layout.width * self.layout.height
    }

    /// `e` says that there is no memory for a copy of a padded plane.
    pub open spec fn copy_fails(self, e: DecodeError) -> bool {
        &&& !self.is_tight()
        &&& e == no_memory::<T>("tight plane", self.layout.width * self.layout.height)
    }

    /// Copies the samples without padding, given what came of asking for room.
    pub fn copied_into(&self, room: Result<Vec<T>, DecodeError>) -> (r: Result<Vec<T>, DecodeError>)
        requires
            self.wf(),
            room matches Ok(v) ==> v@.len() == self.layout.width * self.layout.height,
        ensures
            match room {
                Err(e) => r == Err::<Vec<T>, DecodeError>(e),
                Ok(_) => r matches Ok(v) && v@ == self.raster(),
            },
    {
        let w: usize = self.layout.width;
        let h: usize = self.layout.height;
        let stride: usize = self.layout.stride;
        let offset: usize = self.layout.offset;
        let mut out: Vec<T> = match room {
            Ok(v) => v,
            Err(e) => return Err(e),
        };
        let len: usize = out.len();
        let total: usize = self.data.len();
        proof {
            assert(w * h == h * w) by (nonlinear_arith);
        }
        let mut i: usize = 0;
        while i < len
            invariant
                self.wf(),
                total == self.data@.len(),
                w == self.layout.width,
                h == self.layout.height,
                stride == self.layout.stride,
                offset == self.layout.offset,
                len == w * h,
                w * h == h * w,
                i <= len,
                out@.len() == len,
                forall|k: int| 0 <= k < i ==> out@[k] == self.raster()[k],
            decreases len - i,
        {
            proof {
                assert(w > 0 && h > 0) by (nonlinear_arith)
                    requires
                        0 < w * h,
                        0 <= w,
                        0 <= h,
                ;
            }
            let y: usize = i / w;
            let x: usize = i % w;
            proof {
                lemma_row_major_split(i as int, w as int, h as int);
                assert(y * stride <= (h - 1) * stride) by (nonlinear_arith)
                    requires
                        0 <= y <= h - 1,
                        0 <= stride,
                ;
                assert(self.raster()[i as int] == self.data@[self.layout.index(x as int, y as int)]);
            }
            let s: T = self.data[offset + y * stride + x];
            out.set(i, s);
            i = i + 1;
        }
        proof {
            assert(out@ =~= self.raster());
        }
        Ok(out)
    }

    /// The samples without padding. The buffer itself is handed out if it has none; else the copy
    /// needs memory.
    pub fn into_tight(self) -> (r: Result<Vec<T>, DecodeError>)
        requires
            self.wf(),
        ensures
            match r {
                Ok(v) => v@ == self.raster(),
                Err(e) => self.copy_fails(e),
            },
    {
        let w: usize = self.layout.width;
        let h: usize = self.layout.height;
        let stride: usize = self.layout.stride;
        let offset: usize = self.layout.offset;
        let total: usize = self.data.len();
        if w == 0 || h == 0 {
            let empty: Vec<T> = Vec::new();
            proof {
                assert(w * h == 0) by (nonlinear_arith)
                    requires
                        w == 0 || h == 0,
                ;
                assert(empty@ =~= self.raster());
            }
            return Ok(empty);
        }
        proof {
            assert(w * h <= (h - 1) * stride + w) by (nonlinear_arith)
                requires
                    w <= stride,
                    h >= 1,
            ;
            assert(w * h == h * w) by (nonlinear_arith);
        }
        let len: usize = w * h;
        if offset == 0 && stride == w && total == len {
            proof {
                assert forall|i: int| 0 <= i < len implies self.raster()[i] == self.data@[i] by {
                    lemma_row_major_split(i, w as int, h as int);
                }
                assert(self.raster() =~= self.data@);
            }
            return Ok(self.data);
        }
        self.copied_into(try_vec(T::zero(), len, "tight plane"))
    }
}

/// Three planes, or one if there is no chroma.
#[derive(Clone, Debug)]
pub struct PlanarImage<T> {
    pub y: PlaneBuffer<T>,
    pub cb: Option<PlaneBuffer<T>>,
    pub cr: Option<PlaneBuffer<T>>,
}

impl<T: Sample> PlanarImage<T> {
    pub open spec fn wf(self) -> bool {
        &&& self.y.wf()
        &&& self.cb matches Some(p) ==> p.wf()
        &&& self.cr matches Some(p) ==> p.wf()
    }
}

/// Planes of 8 or 16 bit samples.
#[derive(Clone, Debug)]
pub enum YuvBuffer {
    U8(PlanarImage<u8>),
    U16(PlanarImage<u16>),
}

impl YuvBuffer {
    pub open spec fn wf(self) -> bool {
        match self {
            YuvBuffer::U8(p) => p.wf(),
            YuvBuffer::U16(p) => p.wf(),
        }
    }

    pub open spec fn luma_layout(self) -> PlaneLayout {
        match self {
            YuvBuffer::U8(p) => p.y.layout,
            YuvBuffer::U16(p) => p.y.layout,
        }
    }

    /// Width of the luma plane.
    pub fn width(&self) -> (r: usize)
        ensures
            r == self.luma_layout().width,
    {
        match self {
            YuvBuffer::U8(p) => p.y.width(),
            YuvBuffer::U16(p) => p.y.width(),
        }
    }

    /// Height of the luma plane.
    pub fn height(&self) -> (r: usize)
        ensures
            r == self.luma_layout().height,
    {
        match self {
            YuvBuffer::U8(p) => p.y.height(),
            YuvBuffer::U16(p) => p.y.height(),
        }
    }
}

/// A plane of 8 or 16 bit samples.
#[derive(Clone, Debug)]
pub enum SamplePlane {
    U8(PlaneBuffer<u8>),
    U16(PlaneBuffer<u16>),
}

impl SamplePlane {
    pub open spec fn wf(self) -> bool {
        match self {
            SamplePlane::U8(p) => p.wf(),
            SamplePlane::U16(p) => p.wf(),
        }
    }
}

/// The bit depths, and the one that a signalled number of bits stands for.
pub proof fn depths_have_8_10_or_12_bits(d: BitDepth, bits: int)
    ensures
        d is Eight ==> d.count() == 8,
        d is Ten ==> d.count() == 10,
        d is Twelve ==> d.count() == 12,
        BitDepth::signalled(d.count()) == d,
        bits != 10 && bits != 12 ==> BitDepth::signalled(bits) is Eight,
{
}

/// Chroma is halved across in 4:2:0 and 4:2:2, and down in 4:2:0.
pub proof fn chroma_is_halved_by_format(c: ChromaFormat)
    ensures
        c is Yuv420 ==> c.step_x() == 2 && c.step_y() == 2,
        c is Yuv422 ==> c.step_x() == 2 && c.step_y() == 1,
        c is Yuv444 || c is Monochrome ==> c.step_x() == 1 && c.step_y() == 1,
{
}

/// Division that rounds up gives the least number of parts that is enough.
pub proof fn rounding_up_is_enough(a: int, b: int)
    requires
        0 <= a,
        0 < b,
    ensures
        b * (ceil_div(a, b) - 1) < a <= b * ceil_div(a, b) || a == 0 && ceil_div(a, b) == 0,
{
    let q = ceil_div(a, b);
    vstd::arithmetic::div_mod::lemma_fundamental_div_mod(a + b - 1, b);
    let r = (a + b - 1) % b;
    assert(b * (q - 1) == b * q - b) by (nonlinear_arith);
    assert(a + b - 1 == b * q + r);
    if a == 0 {
        assert(q == 0) by (nonlinear_arith)
            requires
                b - 1 == b * q + r,
                0 <= r < b,
                b > 0,
        ;
    }
}

/// Sample `(x, y)` of a plane stands `y` strides and `x` samples behind its offset; without the
/// rest it stands at `y * width + x`.
pub proof fn planes_are_read_by_stride<T: Sample>(p: PlaneBuffer<T>, x: int, y: int)
    requires
        0 <= x < p.layout.width,
        0 <= y < p.layout.height,
    ensures
        p@.width == p.layout.width,
        p@.height == p.layout.height,
        p@.samples == p.raster(),
        p.raster().len() == p.layout.width * p.layout.height,
        p.raster()[y * p.layout.width + x] == p.data@[p.layout.offset + y * p.layout.stride + x],
        p.is_tight() ==> p.raster()[y * p.layout.width + x] == p.data@[y * p.layout.width + x],
        p.wf() ==> p.layout.offset + y * p.layout.stride + x < p.data@.len(),
{
    let (w, h) = (p.layout.width as int, p.layout.height as int);
    lemma_row_major(y, x, w, h);
    assert(h * w == w * h) by (nonlinear_arith);
    if p.wf() {
        let s = p.layout.stride as int;
        assert(y * s <= (h - 1) * s) by (nonlinear_arith)
            requires
                y <= h - 1,
                0 <= s,
        ;
    }
}

} // verus!
