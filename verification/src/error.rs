//! What can go wrong while decoding.
use vstd::prelude::*;

verus! {

/// A decoding error.
#[derive(Clone, Copy, Debug)]
pub enum DecodeError {
    /// The coded data contradict themselves or end too early.
    Bitstream(&'static str),
    /// A parameter set cannot be used.
    ParamSet(&'static str),
    /// The container lacks a box that decoding needs.
    MissingBox(&'static str),
    /// The stream asks for something that the decoder does not offer.
    Unsupported(&'static str),
    /// A width or height of zero.
    BadDimensions { w: u32, h: u32 },
    /// A declared quantity exceeds its limit.
    LimitExceeded { what: &'static str, value: u64, limit: u64 },
    /// No memory for a buffer of this many bytes.
    AllocationFailed { what: &'static str, bytes: usize },
}

} // verus!
