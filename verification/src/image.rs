//! Decoded images and gain maps.
use vstd::prelude::*;
use crate::color::ColorMetadata;
use crate::error::DecodeError;
use crate::formats::{
    BitDepth, ChromaFormat, ImageBuffer, PlanarImage, PlaneBuffer, SampleBuf, SamplePlane, Samples,
    YuvBuffer,
};
use crate::metadata::{CleanAperture, ContentLightLevel, Orientation, PixelAspectRatio};
use crate::sample::Sample;

verus! {

/// An HDR gain map, decoded from an auxiliary image.
#[derive(Clone, Debug)]
pub struct GainMap {
    pub width: u32,
    pub height: u32,
    /// Size of each chroma plane; zero for monochrome maps.
    pub chroma_width: u32,
    pub chroma_height: u32,
    pub y: SampleBuf,
    /// Absent from monochrome maps.
    pub cb: Option<SampleBuf>,
    /// Absent from monochrome maps.
    pub cr: Option<SampleBuf>,
    pub chroma: ChromaFormat,
    pub bit_depth: BitDepth,
    /// Colour signalling of the gain-map item.
    pub color: ColorMetadata,
    /// Orientation of the gain-map item.
    pub orientation: Orientation,
    /// Metadata item that belongs to the gain map.
    pub metadata: Option<Vec<u8>>,
}

/// Number of channels of a gain map.
pub open spec fn channel_count(chroma: ChromaFormat) -> int {
    if chroma is Monochrome {
        1
    } else {
        3
    }
}

impl GainMap {
    /// Number of gain channels.
    pub fn channels(&self) -> (r: usize)
        ensures
            r == channel_count(self.chroma),
    {
        if self.chroma.is_monochrome() {
            1
        } else {
            3
        }
    }
}

/// Gain-map planes with pitch and offset.
#[derive(Clone, Debug)]
pub struct GainMapFrame {
    pub planes: YuvBuffer,
    pub bit_depth: BitDepth,
    pub chroma: ChromaFormat,
    pub color: ColorMetadata,
    pub orientation: Orientation,
    pub metadata: Option<Vec<u8>>,
}

/// Width and height of the first chroma plane, zero if there is none.
pub open spec fn chroma_size<T: Sample>(p: PlanarImage<T>) -> (u32, u32) {
    match p.cb {
        Some(c) => (c.layout.width as u32, c.layout.height as u32),
        None => (0u32, 0u32),
    }
}

/// Samples of an optional plane in row order.
pub open spec fn opt_raster<T: Sample>(p: Option<PlaneBuffer<T>>) -> Option<Seq<T>> {
    match p {
        Some(b) => Some(b.raster()),
        None => None,
    }
}

pub open spec fn opt_tight<T: Sample>(p: Option<PlaneBuffer<T>>) -> bool {
    p matches Some(b) ==> b.is_tight()
}

/// `e` says that there is no memory for a copy of an optional plane that is padded.
pub open spec fn opt_copy_fails<T: Sample>(p: Option<PlaneBuffer<T>>, e: DecodeError) -> bool {
    p matches Some(b) && b.copy_fails(e)
}

/// `e` says that there is no memory for a copy of one of the planes.
pub open spec fn any_copy_fails<T: Sample>(p: PlanarImage<T>, e: DecodeError) -> bool {
    p.y.copy_fails(e) || opt_copy_fails(p.cb, e) || opt_copy_fails(p.cr, e)
}

/// No plane of an image is padded.
pub open spec fn all_tight<T: Sample>(p: PlanarImage<T>) -> bool {
    p.y.is_tight() && opt_tight(p.cb) && opt_tight(p.cr)
}

fn chroma_size_of<T: Sample>(p: &PlanarImage<T>) -> (r: (u32, u32))
    ensures
        r == chroma_size(*p),
{
    match &p.cb {
        Some(c) => (c.width() as u32, c.height() as u32),
        None => (0, 0),
    }
}

fn tight_option<T: Sample>(p: Option<PlaneBuffer<T>>) -> (r: Result<Option<Vec<T>>, DecodeError>)
    requires
        p matches Some(b) ==> b.wf(),
    ensures
        match r {
            Ok(Some(v)) => opt_raster(p) == Some(v@),
            Ok(None) => p is None,
            Err(e) => opt_copy_fails(p, e),
        },
{
    match p {
        Some(b) => match b.into_tight() {
            Ok(v) => Ok(Some(v)),
            Err(e) => Err(e),
        },
        None => Ok(None),
    }
}

/// The samples of an optional plane.
pub open spec fn opt_samples(b: Option<SampleBuf>) -> Option<Samples> {
    match b {
        Some(s) => Some(s@),
        None => None,
    }
}

/// The samples of planes without padding.
pub open spec fn packed_samples(p: YuvBuffer) -> (Samples, Option<Samples>, Option<Samples>) {
    match p {
        YuvBuffer::U8(p) => (
            Samples::U8(p.y.raster()),
            match opt_raster(p.cb) {
                Some(s) => Some(Samples::U8(s)),
                None => None,
            },
            match opt_raster(p.cr) {
                Some(s) => Some(Samples::U8(s)),
                None => None,
            },
        ),
        YuvBuffer::U16(p) => (
            Samples::U16(p.y.raster()),
            match opt_raster(p.cb) {
                Some(s) => Some(Samples::U16(s)),
                None => None,
            },
            match opt_raster(p.cr) {
                Some(s) => Some(Samples::U16(s)),
                None => None,
            },
        ),
    }
}

impl YuvBuffer {
    /// No plane is padded.
    pub open spec fn is_tight(self) -> bool {
        match self {
            YuvBuffer::U8(p) => all_tight(p),
            YuvBuffer::U16(p) => all_tight(p),
        }
    }

    /// There are no chroma planes.
    pub open spec fn is_grey(self) -> bool {
        match self {
            YuvBuffer::U8(p) => p.cb is None && p.cr is None,
            YuvBuffer::U16(p) => p.cb is None && p.cr is None,
        }
    }

    /// Both chroma planes are there.
    pub open spec fn has_color(self) -> bool {
        match self {
            YuvBuffer::U8(p) => p.cb is Some && p.cr is Some,
            YuvBuffer::U16(p) => p.cb is Some && p.cr is Some,
        }
    }

    /// `e` says that there is no memory for a copy of a padded plane.
    pub open spec fn copy_fails(self, e: DecodeError) -> bool {
        match self {
            YuvBuffer::U8(p) => any_copy_fails(p, e),
            YuvBuffer::U16(p) => any_copy_fails(p, e),
        }
    }

    /// Width and height of the chroma planes, zero if there are none.
    pub open spec fn chroma_dims(self) -> (u32, u32) {
        match self {
            YuvBuffer::U8(p) => chroma_size(p),
            YuvBuffer::U16(p) => chroma_size(p),
        }
    }

    fn chroma_dims_of(&self) -> (r: (u32, u32))
        ensures
            r == self.chroma_dims(),
    {
        match self {
            YuvBuffer::U8(p) => chroma_size_of(p),
            YuvBuffer::U16(p) => chroma_size_of(p),
        }
    }

    /// The samples of all planes without padding.
    pub fn into_packed_samples(self) -> (r: Result<
        (SampleBuf, Option<SampleBuf>, Option<SampleBuf>),
        DecodeError,
    >)
        requires
            self.wf(),
        ensures
            match r {
                Ok(t) => (t.0@, opt_samples(t.1), opt_samples(t.2)) == packed_samples(self),
                Err(e) => self.copy_fails(e),
            },
    {
        match self {
            YuvBuffer::U8(p) => {
                let y: Vec<u8> = match p.y.into_tight() {
                    Ok(v) => v,
                    Err(e) => return Err(e),
                };
                let cb: Option<SampleBuf> = match tight_option(p.cb) {
                    Ok(Some(v)) => Some(SampleBuf::U8(v)),
                    Ok(None) => None,
                    Err(e) => return Err(e),
                };
                let cr: Option<SampleBuf> = match tight_option(p.cr) {
                    Ok(Some(v)) => Some(SampleBuf::U8(v)),
                    Ok(None) => None,
                    Err(e) => return Err(e),
                };
                Ok((SampleBuf::U8(y), cb, cr))
            },
            YuvBuffer::U16(p) => {
                let y: Vec<u16> = match p.y.into_tight() {
                    Ok(v) => v,
                    Err(e) => return Err(e),
                };
                let cb: Option<SampleBuf> = match tight_option(p.cb) {
                    Ok(Some(v)) => Some(SampleBuf::U16(v)),
                    Ok(None) => None,
                    Err(e) => return Err(e),
                };
                let cr: Option<SampleBuf> = match tight_option(p.cr) {
                    Ok(Some(v)) => Some(SampleBuf::U16(v)),
                    Ok(None) => None,
                    Err(e) => return Err(e),
                };
                Ok((SampleBuf::U16(y), cb, cr))
            },
        }
    }
}

impl GainMapFrame {
    /// Width of the luma plane.
    pub fn width(&self) -> (r: usize)
        ensures
            r == self.planes.luma_layout().width,
    {
        self.planes.width()
    }

    /// Height of the luma plane.
    pub fn height(&self) -> (r: usize)
        ensures
            r == self.planes.luma_layout().height,
    {
        self.planes.height()
    }

    /// Number of gain channels.
    pub fn channels(&self) -> (r: usize)
        ensures
            r == channel_count(self.chroma),
    {
        if self.chroma.is_monochrome() {
            1
        } else {
            3
        }
    }

    /// `g` is the frame without padding.
    pub open spec fn packs_to(self, g: GainMap) -> bool {
        &&& g.width == self.planes.luma_layout().width as u32
        &&& g.height == self.planes.luma_layout().height as u32
        &&& (g.chroma_width, g.chroma_height) == self.planes.chroma_dims()
        &&& (g.y@, opt_samples(g.cb), opt_samples(g.cr)) == packed_samples(self.planes)
        &&& g.chroma == self.chroma
        &&& g.bit_depth == self.bit_depth
        &&& g.color == self.color
        &&& g.orientation == self.orientation
        &&& g.metadata == self.metadata
    }

    /// The gain map without padding. Planes that are padded are copied, which needs memory.
    pub fn into_packed(self) -> (r: Result<GainMap, DecodeError>)
        requires
            self.planes.wf(),
        ensures
            match r {
                Ok(g) => self.packs_to(g),
                Err(e) => self.planes.copy_fails(e),
            },
    {
        let width: u32 = self.planes.width() as u32;
        let height: u32 = self.planes.height() as u32;
        let (chroma_width, chroma_height): (u32, u32) = self.planes.chroma_dims_of();
        let (y, cb, cr): (SampleBuf, Option<SampleBuf>, Option<SampleBuf>) =
            match self.planes.into_packed_samples() {
            Ok(t) => t,
            Err(e) => return Err(e),
        };
        Ok(
            GainMap {
                width,
                height,
                chroma_width,
                chroma_height,
                y,
                cb,
                cr,
                chroma: self.chroma,
                bit_depth: self.bit_depth,
                color: self.color,
                orientation: self.orientation,
                metadata: self.metadata,
            },
        )
    }
}

/// Raw planes of an image. Images of one item keep the buffer of their decoder, and show the
/// visible part through pitch and offset; grids have no padding.
#[derive(Clone, Debug)]
pub struct DecodedYuv {
    pub planes: YuvBuffer,
    pub alpha: Option<SamplePlane>,
    pub gain_map: Option<GainMapFrame>,
    pub bit_depth: BitDepth,
    pub chroma: ChromaFormat,
    pub color: ColorMetadata,
    pub orientation: Orientation,
    pub clean_aperture: Option<CleanAperture>,
    pub pixel_aspect_ratio: Option<PixelAspectRatio>,
    pub exif: Option<Vec<u8>>,
}

impl DecodedYuv {
    /// Width of the luma plane.
    pub fn width(&self) -> (r: usize)
        ensures
            r == self.planes.luma_layout().width,
    {
        self.planes.width()
    }

    /// Height of the luma plane.
    pub fn height(&self) -> (r: usize)
        ensures
            r == self.planes.luma_layout().height,
    {
        self.planes.height()
    }
}

/// Packed 8-bit RGB, three bytes per pixel.
#[derive(Clone, Debug)]
pub struct Rgb8Image {
    pub pixels: Vec<u8>,
    pub width: u32,
    pub height: u32,
}

/// An image ready for display.
pub struct DecodedImage {
    pub width: u32,
    pub height: u32,
    /// Interleaved pixels, in the depth of the source.
    pub pixels: ImageBuffer,
    pub alpha: Option<SampleBuf>,
    pub gain_map: Option<GainMap>,
    pub bit_depth: BitDepth,
    pub color: ColorMetadata,
    /// The orientation that was applied.
    pub orientation: Orientation,
    pub content_light_level: Option<ContentLightLevel>,
    pub clean_aperture: Option<CleanAperture>,
    /// Absent for square pixels.
    pub pixel_aspect_ratio: Option<PixelAspectRatio>,
    pub exif: Option<Vec<u8>>,
}

/// Grey images have one channel and colour images three.
pub proof fn channels_follow_the_format(chroma: ChromaFormat)
    ensures
        chroma is Monochrome ==> channel_count(chroma) == 1,
        !(chroma is Monochrome) ==> channel_count(chroma) == 3,
{
}

/// A packed gain map has the samples of each plane without gaps, and describes itself as its source
/// does.
pub proof fn packed_maps_hold_their_planes(frame: GainMapFrame, g: GainMap)
    requires
        frame.packs_to(g),
    ensures
        frame.planes matches YuvBuffer::U8(p) ==> {
            &&& g.y@ == Samples::U8(p.y.raster())
            &&& p.cb matches Some(c) ==> g.cb is Some && g.cb->0@ == Samples::U8(c.raster())
            &&& p.cr matches Some(c) ==> g.cr is Some && g.cr->0@ == Samples::U8(c.raster())
            &&& p.cb is None ==> g.cb is None && g.chroma_width == 0 && g.chroma_height == 0
            &&& p.cr is None ==> g.cr is None
            &&& g.width == p.y.layout.width as u32
            &&& g.height == p.y.layout.height as u32
            &&& p.cb matches Some(c) ==> g.chroma_width == c.layout.width as u32 && g.chroma_height
                == c.layout.height as u32
        },
        frame.planes matches YuvBuffer::U16(p) ==> {
            &&& g.y@ == Samples::U16(p.y.raster())
            &&& p.cb matches Some(c) ==> g.cb is Some && g.cb->0@ == Samples::U16(c.raster())
            &&& p.cr matches Some(c) ==> g.cr is Some && g.cr->0@ == Samples::U16(c.raster())
            &&& p.cb is None ==> g.cb is None && g.chroma_width == 0 && g.chroma_height == 0
            &&& p.cr is None ==> g.cr is None
            &&& g.width == p.y.layout.width as u32
            &&& g.height == p.y.layout.height as u32
            &&& p.cb matches Some(c) ==> g.chroma_width == c.layout.width as u32 && g.chroma_height
                == c.layout.height as u32
        },
        g.chroma == frame.chroma,
        g.bit_depth == frame.bit_depth,
        g.color == frame.color,
        g.orientation == frame.orientation,
        g.metadata == frame.metadata,
{
}

} // verus!
