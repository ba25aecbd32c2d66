//! A verified HEVC still-image decoder library: sample arithmetic, motion prediction, palette coding,
//! reference picture sets, tiles, and the assembly of HEIF images.
//!
//! The bitstream parsers that image assembly rests on are reached through [`codec::Codec`].
use vstd::prelude::*;

pub mod agreement;
pub mod arith;
pub mod auxiliary;
pub mod bitreader;
pub mod codec;
pub mod color;
pub mod config;
pub mod deblock;
pub mod decode;
pub mod dequant;
pub mod dequant_narrow;
pub mod disjoint;
pub mod error;
pub mod formats;
pub mod grid;
pub mod heif;
pub mod image;
pub mod intra;
pub mod limits;
pub mod mc;
pub mod metadata;
pub mod motion;
pub mod nal;
pub mod orientation;
pub mod palette;
pub mod plane;
pub mod reconstruct;
pub mod rgb8;
pub mod rgb_grid;
pub mod rps;
pub mod sample;
pub mod sao;
pub mod schedule;
pub mod settings;
pub mod stitch;
pub mod tiles;
pub mod transform;
pub mod unturned;
pub mod window;
pub mod yuv;

pub use color::{Cicp, ColorMetadata, MatrixCoefficients, Primaries, TransferFunction};
pub use decode::{
    decode_heic, decode_heic_rgb8, decode_heic_rgb8_with_settings, decode_heic_with_settings,
    decode_heic_yuv, decode_heic_yuv_with_settings, Decoder,
};
pub use error::DecodeError;
pub use formats::{
    BitDepth, ChromaFormat, ImageBuffer, PlanarImage, PlaneBuffer, PlaneLayout, SampleBuf,
    SamplePlane, YuvBuffer,
};
pub use image::{DecodedImage, DecodedYuv, GainMap, GainMapFrame, Rgb8Image};
pub use limits::ParseLimits;
pub use metadata::{CleanAperture, ContentLightLevel, Orientation, PixelAspectRatio};
pub use settings::{DecodeThreads, HeicSettings};

verus! {

} // verus!
