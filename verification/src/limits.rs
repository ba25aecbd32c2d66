//! Limits on what a file may declare, checked before any sample is decoded.
use vstd::prelude::*;
use crate::arith::{lemma_p2_values, p2};
use crate::error::DecodeError;

verus! {

/// Limits enforced while parsing the container.
#[derive(Clone, Copy, Debug)]
pub struct ParseLimits {
    /// Largest accepted width or height, in samples.
    pub max_dimension: u32,
    /// Largest accepted number of pixels.
    pub max_pixels: u64,
    /// Largest accepted size of a box, in bytes.
    pub max_box_size: u64,
    /// Largest accepted size of the coded data of an item, in bytes.
    pub max_item_size: u64,
    /// Largest accepted size of a decoder configuration record, in bytes.
    pub max_hvcc_size: usize,
    /// Largest accepted size of copied metadata, in bytes.
    pub max_exif_size: usize,
    /// Largest accepted number of items.
    pub max_items: usize,
    /// Largest accepted number of extents of an item.
    pub max_extents_per_item: usize,
    /// Largest accepted number of grid tiles.
    pub max_tiles: usize,
}

impl ParseLimits {
    /// Default cap on width and height.
    pub const DEFAULT_MAX_DIMENSION: u32 = 16_384;

    /// Default cap on the number of pixels.
    pub const DEFAULT_MAX_PIXELS: u64 = 67_108_864;

    /// Default cap on the size of a box.
    pub const DEFAULT_MAX_BOX_SIZE: u64 = 268_435_456;

    /// Default cap on the size of an item.
    pub const DEFAULT_MAX_ITEM_SIZE: u64 = 268_435_456;

    /// Default cap on the size of a decoder configuration record.
    pub const DEFAULT_MAX_HVCC_SIZE: usize = 65_536;

    /// Default cap on the size of copied metadata.
    pub const DEFAULT_MAX_EXIF_SIZE: usize = 1_048_576;

    /// Default cap on the number of items.
    pub const DEFAULT_MAX_ITEMS: usize = 4096;

    /// Default cap on the number of extents of an item.
    pub const DEFAULT_MAX_EXTENTS_PER_ITEM: usize = 64;

    /// Default cap on the number of grid tiles.
    pub const DEFAULT_MAX_TILES: usize = 16_384;

    /// The default limits.
    pub open spec fn standard() -> ParseLimits {
        ParseLimits {
            max_dimension: 16_384,
            max_pixels: 67_108_864,
            max_box_size: 268_435_456,
            max_item_size: 268_435_456,
            max_hvcc_size: 65_536,
            max_exif_size: 1_048_576,
            max_items: 4096,
            max_extents_per_item: 64,
            max_tiles: 16_384,
        }
    }

    /// The default limits.
    pub fn new() -> (r: Self)
        ensures
            r == ParseLimits::standard(),
    {
        ParseLimits {
            max_dimension: Self::DEFAULT_MAX_DIMENSION,
            max_pixels: Self::DEFAULT_MAX_PIXELS,
            max_box_size: Self::DEFAULT_MAX_BOX_SIZE,
            max_item_size: Self::DEFAULT_MAX_ITEM_SIZE,
            max_hvcc_size: Self::DEFAULT_MAX_HVCC_SIZE,
            max_exif_size: Self::DEFAULT_MAX_EXIF_SIZE,
            max_items: Self::DEFAULT_MAX_ITEMS,
            max_extents_per_item: Self::DEFAULT_MAX_EXTENTS_PER_ITEM,
            max_tiles: Self::DEFAULT_MAX_TILES,
        }
    }

    /// What is wrong with an image of the given size, the first complaint in the order zero, width,
    /// height, number of pixels.
    pub open spec fn complaint(self, w: u32, h: u32) -> Option<DecodeError> {
        if w == 0 || h == 0 {
            Some(DecodeError::BadDimensions { w, h })
        } else if w > self.max_dimension {
            Some(
                DecodeError::LimitExceeded {
                    what: "image width",
                    value: w as u64,
                    limit: self.max_dimension as u64,
                },
            )
        } else if h > self.max_dimension {
            Some(
                DecodeError::LimitExceeded {
                    what: "image height",
                    value: h as u64,
                    limit: self.max_dimension as u64,
                },
            )
        } else if w * h > self.max_pixels {
            Some(
                DecodeError::LimitExceeded {
                    what: "image pixels",
                    value: (w * h) as u64,
                    limit: self.max_pixels,
                },
            )
        } else {
            None
        }
    }

    /// Checks a declared image size against the limits.
    pub fn check_image(&self, w: u32, h: u32) -> (r: Result<(), DecodeError>)
        ensures
            match self.complaint(w, h) {
                Some(e) => r == Err::<(), DecodeError>(e),
                None => r is Ok,
            },
    {
        if w == 0 || h == 0 {
            return Err(DecodeError::BadDimensions { w, h });
        }
        if w > self.max_dimension {
            return Err(
                DecodeError::LimitExceeded {
                    what: "image width",
                    value: w as u64,
                    limit: self.max_dimension as u64,
                },
            );
        }
        if h > self.max_dimension {
            return Err(
                DecodeError::LimitExceeded {
                    what: "image height",
                    value: h as u64,
                    limit: self.max_dimension as u64,
                },
            );
        }
        proof {
            assert(w * h <= 0xffff_ffff * 0xffff_ffff) by (nonlinear_arith)
                requires
                    0 <= w <= 0xffff_ffff,
                    0 <= h <= 0xffff_ffff,
            ;
        }
        let px: u64 = w as u64 * h as u64;
        if px > self.max_pixels {
            return Err(
                DecodeError::LimitExceeded {
                    what: "image pixels",
                    value: px,
                    limit: self.max_pixels,
                },
            );
        }
        Ok(())
    }
}

impl Default for ParseLimits {
    fn default() -> (r: Self)
        ensures
            r == ParseLimits::standard(),
    {
        ParseLimits::new()
    }
}

/// Raising the image limits accepts no fewer images, and an image stays accepted when it shrinks.
pub proof fn acceptance_is_monotone(a: ParseLimits, b: ParseLimits, w: u32, h: u32, w2: u32, h2: u32)
    requires
        a.max_dimension <= b.max_dimension,
        a.max_pixels <= b.max_pixels,
        0 < w2 <= w,
        0 < h2 <= h,
        a.complaint(w, h) is None,
    ensures
        b.complaint(w2, h2) is None,
{
    assert(w2 * h2 <= w * h) by (nonlinear_arith)
        requires
            0 < w2 <= w,
            0 < h2 <= h,
    ;
}

/// An image is accepted if it is not empty, neither side is too long, and it has not too many
/// pixels.
pub proof fn accepted_sizes_are_within_limits(l: ParseLimits, w: u32, h: u32)
    ensures
        l.complaint(w, h) is None <==> 0 < w <= l.max_dimension && 0 < h <= l.max_dimension && w
            * h <= l.max_pixels,
        w == 0 || h == 0 ==> l.complaint(w, h) == Some(DecodeError::BadDimensions { w, h }),
{
}

/// The limits that hold where none are given: 2^14 samples a side, 2^26 pixels, 2^28 bytes for a
/// box and for an item, 2^16 for the decoder configuration, 2^20 for camera metadata, 2^12 items of
/// 2^6 extents, and 2^14 tiles.
pub proof fn standard_limits_are_powers_of_two()
    ensures
        ParseLimits::standard().max_dimension == p2(14),
        ParseLimits::standard().max_pixels == p2(14) * p2(12),
        ParseLimits::standard().max_box_size == p2(14) * p2(14),
        ParseLimits::standard().max_item_size == p2(14) * p2(14),
        ParseLimits::standard().max_hvcc_size == p2(16),
        ParseLimits::standard().max_exif_size == p2(20),
        ParseLimits::standard().max_items == p2(12),
        ParseLimits::standard().max_extents_per_item == p2(6),
        ParseLimits::standard().max_tiles == p2(14),
{
    lemma_p2_values();
}

/// A complaint names the first limit that is exceeded, of width, height and pixels, with the value that
/// exceeds it.
pub proof fn complaints_name_the_first_limit(l: ParseLimits, w: u32, h: u32)
    requires
        0 < w,
        0 < h,
    ensures
        w > l.max_dimension ==> l.complaint(w, h) == Some(
            DecodeError::LimitExceeded {
                what: "image width",
                value: w as u64,
                limit: l.max_dimension as u64,
            },
        ),
        w <= l.max_dimension < h ==> l.complaint(w, h) == Some(
            DecodeError::LimitExceeded {
                what: "image height",
                value: h as u64,
                limit: l.max_dimension as u64,
            },
        ),
        w <= l.max_dimension && h <= l.max_dimension && w * h > l.max_pixels ==> l.complaint(w, h)
            == Some(
            DecodeError::LimitExceeded {
                what: "image pixels",
                value: (w * h) as u64,
                limit: l.max_pixels,
            },
        ),
{
}

} // verus!
