//! Parameter sets and slice headers, as far as still images need them.
use vstd::prelude::*;
use crate::color::{Cicp, MatrixCoefficients, Primaries, TransferFunction};
use crate::formats::{BitDepth, ChromaFormat};
use crate::window::HevcVisibleCrop;

verus! {

/// The parts of a sequence parameter set that concern a still image.
#[derive(Clone, Copy, Debug)]
pub struct Sps {
    pub width: u32,
    pub height: u32,
    pub crop_left: u32,
    pub crop_right: u32,
    pub crop_top: u32,
    pub crop_bottom: u32,
    pub chroma: ChromaFormat,
    pub bit_depth_luma: u8,
    pub color_primaries: u8,
    pub transfer_characteristics: u8,
    pub matrix_coefficients: u8,
    pub video_full_range: bool,
    /// Pictures may refer to themselves.
    pub curr_pic_ref_enabled: bool,
}

/// What remains of an extent when both margins are taken off, at least zero.
pub open spec fn inner_extent(total: u32, a: u32, b: u32) -> int {
    if total >= a + b {
        total - (a + b)
    } else {
        0
    }
}

impl Sps {
    /// Size of the visible picture.
    pub open spec fn visible(self) -> (int, int) {
        (
            inner_extent(self.width, self.crop_left, self.crop_right),
            inner_extent(self.height, self.crop_top, self.crop_bottom),
        )
    }

    /// Size of the visible picture. Margins that add up to more than an extent leave nothing.
    pub fn visible_size(&self) -> (r: (u32, u32))
        ensures
            (r.0 as int, r.1 as int) == self.visible(),
    {
        (
            inner_extent_of(self.width, self.crop_left, self.crop_right),
            inner_extent_of(self.height, self.crop_top, self.crop_bottom),
        )
    }

    /// Colour signalling of the sequence.
    pub open spec fn color(self) -> Cicp {
        Cicp {
            primaries: Primaries(self.color_primaries),
            transfer: TransferFunction(self.transfer_characteristics),
            matrix: MatrixCoefficients::of(self.matrix_coefficients),
            full_range: self.video_full_range,
        }
    }

    /// Colour signalling of the sequence.
    pub fn vui_color(&self) -> (r: Cicp)
        ensures
            r == self.color(),
    {
        Cicp {
            primaries: Primaries::from_u8(self.color_primaries),
            transfer: TransferFunction::from_u8(self.transfer_characteristics),
            matrix: MatrixCoefficients::from_u8(self.matrix_coefficients),
            full_range: self.video_full_range,
        }
    }

    /// Where the visible picture starts.
    pub open spec fn crop(self) -> HevcVisibleCrop {
        HevcVisibleCrop { left: self.crop_left as usize, top: self.crop_top as usize }
    }

    /// Where the visible picture starts.
    pub fn visible_crop(&self) -> (r: HevcVisibleCrop)
        ensures
            r == self.crop(),
    {
        HevcVisibleCrop { left: self.crop_left as usize, top: self.crop_top as usize }
    }

    /// Bits per luma sample.
    pub fn depth(&self) -> (r: BitDepth)
        ensures
            r == BitDepth::signalled(self.bit_depth_luma as int),
    {
        BitDepth::from_signalled(self.bit_depth_luma)
    }
}

fn inner_extent_of(total: u32, a: u32, b: u32) -> (r: u32)
    ensures
        r == inner_extent(total, a, b),
{
    if total >= a && total - a >= b {
        total - a - b
    } else {
        0
    }
}

/// Kinds of slices.
#[derive(Clone, Copy, Debug, PartialEq, Eq, Structural)]
pub enum SliceType {
    B,
    P,
    I,
}

/// The parts of a slice header that concern a still image.
#[derive(Clone, Debug)]
pub struct SliceHeader {
    pub first_slice_in_pic: bool,
    pub dependent_slice_segment: bool,
    pub slice_segment_address: usize,
    pub slice_type: SliceType,
    /// Where the entropy-coded data start in the payload.
    pub cabac_offset: usize,
    /// Sizes of the substreams but the last.
    pub entry_points: Vec<usize>,
    pub num_ref_idx_l0: usize,
    pub num_ref_idx_l1: usize,
    pub list_mod_l0: Vec<usize>,
    pub list_mod_l1: Vec<usize>,
}

/// What is visible of a picture is what the crops on both sides leave of it.
pub proof fn crops_leave_the_visible_part(sps: Sps)
    ensures
        sps.crop_left + sps.crop_right <= sps.width ==> sps.crop_left + sps.visible().0
            + sps.crop_right == sps.width,
        sps.crop_left + sps.crop_right > sps.width ==> sps.visible().0 == 0,
        sps.crop_top + sps.crop_bottom <= sps.height ==> sps.crop_top + sps.visible().1
            + sps.crop_bottom == sps.height,
        sps.crop_top + sps.crop_bottom > sps.height ==> sps.visible().1 == 0,
        sps.crop().left == sps.crop_left,
        sps.crop().top == sps.crop_top,
{
}

/// The colour description of a picture is that of its parameter set; matrix code 2 says nothing.
pub proof fn colours_come_from_the_parameter_set(sps: Sps)
    ensures
        sps.color().primaries.0 == sps.color_primaries,
        sps.color().transfer.0 == sps.transfer_characteristics,
        sps.matrix_coefficients == 2 ==> sps.color().matrix is Unspecified,
        sps.matrix_coefficients != 2 ==> sps.color().matrix == MatrixCoefficients::Code(
            sps.matrix_coefficients,
        ),
        sps.color().full_range == sps.video_full_range,
{
}

} // verus!
