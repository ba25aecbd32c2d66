//! Descriptive properties of an image.
use vstd::prelude::*;

verus! {

/// How the coded image is turned and mirrored for display.
#[derive(Clone, Copy, Debug, PartialEq, Eq, Structural)]
pub enum Orientation {
    Normal,
    FlipH,
    Rotate180,
    FlipV,
    Transpose,
    Rotate90,
    Transverse,
    Rotate270,
}

/// Clean aperture: the part of the image meant for display, as fractions.
#[derive(Clone, Copy, Debug, PartialEq, Eq, Structural)]
pub struct CleanAperture {
    pub width_n: u32,
    pub width_d: u32,
    pub height_n: u32,
    pub height_d: u32,
    pub horiz_off_n: i32,
    pub horiz_off_d: u32,
    pub vert_off_n: i32,
    pub vert_off_d: u32,
}

/// Pixel aspect ratio.
#[derive(Clone, Copy, Debug, PartialEq, Eq, Structural)]
pub struct PixelAspectRatio {
    pub h_spacing: u32,
    pub v_spacing: u32,
}

/// Content light level.
#[derive(Clone, Copy, Debug, PartialEq, Eq, Structural)]
pub struct ContentLightLevel {
    pub max_content: u16,
    pub max_average: u16,
}

} // verus!
