//! Coded pictures: the planes that a bitstream decoder produces.
use vstd::prelude::*;
use crate::formats::{BitDepth, ChromaFormat};

verus! {

/// Planes of a coded picture, without padding between rows.
#[derive(Clone, Debug)]
pub struct NativePlanes<T> {
    pub y: Vec<T>,
    pub cb: Vec<T>,
    pub cr: Vec<T>,
    pub width: usize,
    pub height: usize,
    pub chroma: ChromaFormat,
    pub bit_depth: BitDepth,
}

/// Planes of a coded picture in the narrowest sample type.
#[derive(Clone, Debug)]
pub enum NativeYuvPlanes {
    U8(NativePlanes<u8>),
    U16(NativePlanes<u16>),
}

/// Planes of a coded picture in 16-bit samples.
pub type YuvPlanes = NativePlanes<u16>;

impl NativeYuvPlanes {
    pub open spec fn size(self) -> (usize, usize) {
        match self {
            NativeYuvPlanes::U8(p) => (p.width, p.height),
            NativeYuvPlanes::U16(p) => (p.width, p.height),
        }
    }

    pub open spec fn depth(self) -> BitDepth {
        match self {
            NativeYuvPlanes::U8(p) => p.bit_depth,
            NativeYuvPlanes::U16(p) => p.bit_depth,
        }
    }

    pub open spec fn sampling(self) -> ChromaFormat {
        match self {
            NativeYuvPlanes::U8(p) => p.chroma,
            NativeYuvPlanes::U16(p) => p.chroma,
        }
    }

    /// Width and height of the luma plane.
    pub fn dims(&self) -> (r: (usize, usize))
        ensures
            r == self.size(),
    {
        match self {
            NativeYuvPlanes::U8(p) => (p.width, p.height),
            NativeYuvPlanes::U16(p) => (p.width, p.height),
        }
    }

    pub fn bit_depth(&self) -> (r: BitDepth)
        ensures
            r == self.depth(),
    {
        match self {
            NativeYuvPlanes::U8(p) => p.bit_depth,
            NativeYuvPlanes::U16(p) => p.bit_depth,
        }
    }

    pub fn chroma(&self) -> (r: ChromaFormat)
        ensures
            r == self.sampling(),
    {
        match self {
            NativeYuvPlanes::U8(p) => p.chroma,
            NativeYuvPlanes::U16(p) => p.chroma,
        }
    }
}

/// Decoded planes say their size, depth and sampling, whatever the size of their samples.
pub proof fn decoded_planes_say_their_format(p: NativePlanes<u8>, q: NativePlanes<u16>)
    ensures
        NativeYuvPlanes::U8(p).size() == (p.width, p.height),
        NativeYuvPlanes::U16(q).size() == (q.width, q.height),
        NativeYuvPlanes::U8(p).depth() == p.bit_depth,
        NativeYuvPlanes::U16(q).depth() == q.bit_depth,
        NativeYuvPlanes::U8(p).sampling() == p.chroma,
        NativeYuvPlanes::U16(q).sampling() == q.chroma,
{
}

} // verus!
