//! What a container says about its images.
use vstd::prelude::*;
use crate::color::ColorMetadata;
use crate::error::DecodeError;
use crate::metadata::{CleanAperture, ContentLightLevel, Orientation, PixelAspectRatio};

verus! {

/// Which auxiliary images the container parser loads.
#[derive(Clone, Copy, Debug, PartialEq, Eq, Structural)]
pub struct HeifParseOptions {
    pub load_alpha: bool,
    pub load_gain_map: bool,
}

/// A coded image item.
#[derive(Debug)]
pub struct HeifItem {
    pub data_offset: u64,
    pub data_length: u64,
    /// Decoder configuration record, empty if the item has none.
    pub hvcc: Vec<u8>,
    pub display_w: u32,
    pub display_h: u32,
    pub color: ColorMetadata,
    pub orientation: Orientation,
    pub clap: Option<CleanAperture>,
    pub pasp: Option<PixelAspectRatio>,
    pub cll: Option<ContentLightLevel>,
}

/// An image made of tiles in rows and columns.
#[derive(Debug)]
pub struct GridInfo {
    pub output_width: u32,
    pub output_height: u32,
    pub cols: u32,
    pub rows: u32,
    pub tiles: Vec<HeifItem>,
    pub color: ColorMetadata,
    pub orientation: Orientation,
}

/// Where the samples of an image come from.
#[derive(Debug)]
pub enum HeifImageSource {
    Item(HeifItem),
    Grid(GridInfo),
}

/// A gain map and the metadata item that belongs to it.
#[derive(Debug)]
pub struct HeifGainMap {
    pub image: HeifImageSource,
    pub metadata: Option<Vec<u8>>,
}

/// A parsed container.
#[derive(Debug)]
pub struct HeifFile {
    pub primary: HeifItem,
    /// Present if the primary image is made of tiles.
    pub grid: Option<GridInfo>,
    pub alpha: Option<HeifItem>,
    pub gain_map: Option<HeifGainMap>,
    pub exif: Option<Vec<u8>>,
}

/// What to say of data that cannot be found in the file.
#[derive(Clone, Copy)]
pub struct ExtentMessages {
    pub offset: &'static str,
    pub length: &'static str,
    pub range: &'static str,
    pub end: &'static str,
}

impl HeifItem {
    /// The data of the item lie in a file of `len` bytes.
    pub open spec fn in_file(self, len: int) -> bool {
        self.data_offset + self.data_length <= len
    }

    /// The data of the item.
    pub open spec fn data(self, file: Seq<u8>) -> Seq<u8> {
        file.subrange(self.data_offset as int, self.data_offset + self.data_length)
    }

    /// What is wrong with the place of the data, in a file too short for them.
    pub open spec fn extent_error(self, m: ExtentMessages) -> DecodeError {
        if self.data_offset > usize::MAX {
            DecodeError::Bitstream(m.offset)
        } else if self.data_length > usize::MAX {
            DecodeError::Bitstream(m.length)
        } else if self.data_offset + self.data_length > usize::MAX {
            DecodeError::Bitstream(m.range)
        } else {
            DecodeError::Bitstream(m.end)
        }
    }

    /// Where the data of the item start and end, if they lie in a file of the given length.
    pub fn range_in(&self, file_len: usize) -> (r: Option<(usize, usize)>)
        ensures
            match r {
                Some(t) => self.in_file(file_len as int) && t.0 == self.data_offset && t.1
                    == self.data_offset + self.data_length,
                None => !self.in_file(file_len as int),
            },
    {
        let len: u64 = file_len as u64;
        if self.data_offset <= len && self.data_length <= len - self.data_offset {
            let start: usize = self.data_offset as usize;
            Some((start, start + self.data_length as usize))
        } else {
            None
        }
    }

    /// Where the data of the item start and end.
    pub fn extent(&self, file_len: usize, m: ExtentMessages) -> (r: Result<
        (usize, usize),
        DecodeError,
    >)
        ensures
            if self.in_file(file_len as int) {
                r matches Ok(t) && t.0 == self.data_offset && t.1 == self.data_offset
                    + self.data_length
            } else {
                r == Err::<(usize, usize), DecodeError>(self.extent_error(m))
            },
    {
        if let Some(t) = self.range_in(file_len) {
            return Ok(t);
        }
        if self.data_offset > usize::MAX as u64 {
            return Err(DecodeError::Bitstream(m.offset));
        }
        if self.data_length > usize::MAX as u64 {
            return Err(DecodeError::Bitstream(m.length));
        }
        if self.data_length > usize::MAX as u64 - self.data_offset {
            return Err(DecodeError::Bitstream(m.range));
        }
        Err(DecodeError::Bitstream(m.end))
    }
}

/// The data of an item are the bytes of the file from its offset on, as many as it says.
pub proof fn items_lie_in_the_file(item: HeifItem, file: Seq<u8>, i: int)
    requires
        item.in_file(file.len() as int),
        0 <= i < item.data_length,
    ensures
        item.data_offset + item.data_length <= file.len(),
        item.data(file).len() == item.data_length,
        item.data(file)[i] == file[item.data_offset + i],
{
}

/// Data that do not lie in the file are said to end behind it, unless their place cannot even be
/// counted.
pub proof fn misplaced_data_end_behind_the_file(item: HeifItem, m: ExtentMessages)
    ensures
        item.data_offset + item.data_length <= usize::MAX ==> item.extent_error(m)
            == DecodeError::Bitstream(m.end),
        item.data_offset > usize::MAX ==> item.extent_error(m) == DecodeError::Bitstream(m.offset),
        item.data_offset <= usize::MAX < item.data_length ==> item.extent_error(m)
            == DecodeError::Bitstream(m.length),
        item.data_offset <= usize::MAX && item.data_length <= usize::MAX && item.data_offset
            + item.data_length > usize::MAX ==> item.extent_error(m) == DecodeError::Bitstream(
            m.range,
        ),
{
}

} // verus!
