//! Reduction of decoded images to packed 8-bit RGB.
use vstd::prelude::*;
use crate::arith::{lemma_asr_floor, lemma_p2_pos, lemma_p2_values, p2};
use crate::error::DecodeError;
use crate::formats::{BitDepth, ImageBuffer, Pixels};
use crate::sample::{no_memory, try_vec};

verus! {

/// The upper eight bits of a sample with `shift` bits beyond eight.
pub open spec fn narrowed(v: u16, shift: int) -> u8 {
    ((v as int / p2(shift)) % 256) as u8
}

/// Packed 8-bit RGB of an image; grey pixels repeat their sample.
pub open spec fn rgb8(pixels: Pixels, shift: int) -> Seq<u8> {
    match pixels {
        Pixels::Rgb8(s) => s,
        Pixels::Rgb16(s) => Seq::new(s.len(), |i: int| narrowed(s[i], shift)),
        Pixels::Luma8(s) => Seq::new((3 * s.len()) as nat, |i: int| s[i / 3]),
        Pixels::Luma16(s) => Seq::new((3 * s.len()) as nat, |i: int| narrowed(s[i / 3], shift)),
    }
}

/// The image is packed 8-bit RGB already.
pub open spec fn is_rgb8(pixels: Pixels) -> bool {
    pixels is Rgb8
}

/// Number of bytes of the packed image.
pub open spec fn rgb8_len(pixels: Pixels) -> int {
    match pixels {
        Pixels::Rgb8(s) => s.len() as int,
        Pixels::Rgb16(s) => s.len() as int,
        Pixels::Luma8(s) => 3 * s.len() as int,
        Pixels::Luma16(s) => 3 * s.len() as int,
    }
}

fn narrow(v: u16, depth: BitDepth) -> (r: u8)
    ensures
        r == narrowed(v, depth.count() - 8),
{
    proof {
        lemma_p2_values();
    }
    let unit: u16 = match depth {
        BitDepth::Eight => 1,
        BitDepth::Ten => 4,
        BitDepth::Twelve => 16,
    };
    ((v / unit) % 256) as u8
}

fn tripled(len: usize) -> (r: Result<usize, DecodeError>)
    ensures
        if 3 * len <= usize::MAX {
            r == Ok::<usize, DecodeError>((3 * len) as usize)
        } else {
            r == Err::<usize, DecodeError>(
                DecodeError::Bitstream("RGB8 output length overflows usize"),
            )
        },
{
    match len.checked_mul(3) {
        Some(n) => Ok(n),
        None => Err(DecodeError::Bitstream("RGB8 output length overflows usize")),
    }
}

/// Packs an image of the given depth as 8-bit RGB, given what came of asking for room. An image
/// that is packed already stays as it is.
pub fn packed_into(
    room: Result<Vec<u8>, DecodeError>,
    pixels: ImageBuffer,
    depth: BitDepth,
) -> (r: Result<Vec<u8>, DecodeError>)
    requires
        room matches Ok(v) ==> is_rgb8(pixels@) || v@.len() == rgb8_len(pixels@),
    ensures
        match room {
            Err(e) if !is_rgb8(pixels@) => r == Err::<Vec<u8>, DecodeError>(e),
            _ => r matches Ok(v) && v@ == rgb8(pixels@, depth.count() - 8),
        },
{
    let ghost whole = rgb8(pixels@, depth.count() - 8);
    match pixels {
        ImageBuffer::Rgb8(s) => Ok(s),
        ImageBuffer::Rgb16(s) => {
            let mut out: Vec<u8> = match room {
                Ok(v) => v,
                Err(e) => return Err(e),
            };
            let len: usize = s.len();
            let mut i: usize = 0;
            while i < len
                invariant
                    len == s@.len(),
                    out@.len() == len,
                    whole == rgb8(Pixels::Rgb16(s@), depth.count() - 8),
                    i <= len,
                    forall|k: int| 0 <= k < i ==> out@[k] == whole[k],
                decreases len - i,
            {
                out.set(i, narrow(s[i], depth));
                i = i + 1;
            }
            assert(out@ =~= whole);
            Ok(out)
        },
        ImageBuffer::Luma8(s) => {
            let mut out: Vec<u8> = match room {
                Ok(v) => v,
                Err(e) => return Err(e),
            };
            let len: usize = out.len();
            let mut i: usize = 0;
            while i < len
                invariant
                    len == 3 * s@.len(),
                    out@.len() == len,
                    whole == rgb8(Pixels::Luma8(s@), depth.count() - 8),
                    i <= len,
                    forall|k: int| 0 <= k < i ==> out@[k] == whole[k],
                decreases len - i,
            {
                out.set(i, s[i / 3]);
                i = i + 1;
            }
            assert(out@ =~= whole);
            Ok(out)
        },
        ImageBuffer::Luma16(s) => {
            let mut out: Vec<u8> = match room {
                Ok(v) => v,
                Err(e) => return Err(e),
            };
            let len: usize = out.len();
            let mut i: usize = 0;
            while i < len
                invariant
                    len == 3 * s@.len(),
                    out@.len() == len,
                    whole == rgb8(Pixels::Luma16(s@), depth.count() - 8),
                    i <= len,
                    forall|k: int| 0 <= k < i ==> out@[k] == whole[k],
                decreases len - i,
            {
                out.set(i, narrow(s[i / 3], depth));
                i = i + 1;
            }
            assert(out@ =~= whole);
            Ok(out)
        },
    }
}

/// Packs an image of the given depth as 8-bit RGB.
pub fn to_rgb8(pixels: ImageBuffer, depth: BitDepth) -> (r: Result<Vec<u8>, DecodeError>)
    ensures
        match r {
            Ok(v) => v@ == rgb8(pixels@, depth.count() - 8),
            Err(e) => {
                &&& !is_rgb8(pixels@)
                &&& if rgb8_len(pixels@) > usize::MAX {
                    e == DecodeError::Bitstream("RGB8 output length overflows usize")
                } else {
                    e == no_memory::<u8>("RGB8 output", rgb8_len(pixels@))
                }
            },
        },
{
    let wanted: Result<usize, DecodeError> = match &pixels {
        ImageBuffer::Rgb8(s) => Ok(0),
        ImageBuffer::Rgb16(s) => Ok(s.len()),
        ImageBuffer::Luma8(s) => tripled(s.len()),
        ImageBuffer::Luma16(s) => tripled(s.len()),
    };
    match wanted {
        Ok(len) => packed_into(try_vec(0u8, len, "RGB8 output"), pixels, depth),
        Err(e) => Err(e),
    }
}

/// The packed image has exactly three bytes per pixel.
pub proof fn three_bytes_per_pixel(pixels: Pixels, shift: int, count: int)
    requires
        pixels.len() == count * pixels.channels(),
    ensures
        rgb8(pixels, shift).len() == 3 * count,
{
}

/// The three bytes of a grey pixel are equal.
pub proof fn grey_stays_grey(pixels: Pixels, shift: int, p: int)
    requires
        pixels is Luma8 || pixels is Luma16,
        0 <= p < pixels.len(),
    ensures
        rgb8(pixels, shift)[3 * p] == rgb8(pixels, shift)[3 * p + 1],
        rgb8(pixels, shift)[3 * p] == rgb8(pixels, shift)[3 * p + 2],
{
}

/// A sample within its depth keeps its order when it is narrowed.
pub proof fn narrowing_is_monotone(a: u16, b: u16, depth: BitDepth)
    requires
        a <= b,
        (b as int) < p2(depth.count()),
    ensures
        narrowed(a, depth.count() - 8) <= narrowed(b, depth.count() - 8),
{
    lemma_p2_values();
    let (a, b) = (a as int, b as int);
    match depth {
        BitDepth::Eight => {
            assert(p2(0) == 1 && b < 256);
            assert(a / 1 == a && b / 1 == b);
        },
        BitDepth::Ten => {
            assert(p2(2) == 4 && b < 1024);
            assert(0 <= a / 4 <= b / 4 < 256);
        },
        BitDepth::Twelve => {
            assert(p2(4) == 16 && b < 4096);
            assert(0 <= a / 16 <= b / 16 < 256);
        },
    }
}

/// The packed image keeps the order of the pixels: byte `3 * p + c` comes from component `c` of
/// pixel `p`, and from its only sample if the pixel is grey.
pub proof fn packed_bytes_keep_their_place(pixels: Pixels, shift: int, p: int, c: int)
    requires
        0 <= shift <= 4,
        0 <= p,
        0 <= c < 3,
        pixels matches Pixels::Luma8(s) ==> p < s.len(),
        pixels matches Pixels::Luma16(s) ==> p < s.len(),
        pixels matches Pixels::Rgb8(s) ==> 3 * p + c < s.len(),
        pixels matches Pixels::Rgb16(s) ==> 3 * p + c < s.len(),
    ensures
        rgb8(pixels, shift).len() == match pixels {
            Pixels::Luma8(s) => 3 * s.len(),
            Pixels::Luma16(s) => 3 * s.len(),
            Pixels::Rgb8(s) => s.len(),
            Pixels::Rgb16(s) => s.len(),
        },
        pixels matches Pixels::Luma8(s) ==> rgb8(pixels, shift)[3 * p + c] == s[p],
        pixels matches Pixels::Rgb8(s) ==> rgb8(pixels, shift)[3 * p + c] == s[3 * p + c],
        pixels matches Pixels::Luma16(s) ==> upper_byte(s[p], shift, rgb8(pixels, shift)[3 * p + c]),
        pixels matches Pixels::Rgb16(s) ==> upper_byte(
            s[3 * p + c],
            shift,
            rgb8(pixels, shift)[3 * p + c],
        ),
{
    lemma_p2_pos(shift);
    assert((3 * p + c) / 3 == p);
    match pixels {
        Pixels::Luma16(s) => {
            lemma_upper_byte(s[p], shift);
        },
        Pixels::Rgb16(s) => {
            lemma_upper_byte(s[3 * p + c], shift);
        },
        _ => {},
    }
}

/// Byte `b` is the eight bits of sample `v` above its `shift` lowest: what is left of the sample
/// without them is less than their unit, apart from whole multiples of 256 units.
pub open spec fn upper_byte(v: u16, shift: int, b: u8) -> bool {
    &&& (v as int) < 256 * p2(shift) ==> b * p2(shift) <= v < (b + 1) * p2(shift)
    &&& (v - b * p2(shift)) % (256 * p2(shift)) < p2(shift)
}

proof fn lemma_upper_byte(v: u16, shift: int)
    ensures
        upper_byte(v, shift, narrowed(v, shift)),
{
    lemma_p2_pos(shift);
    lemma_asr_floor(v as int, shift);
    let d = p2(shift);
    let q = v as int / d;
    if v < 256 * d {
        assert(0 <= q < 256) by (nonlinear_arith)
            requires
                q * d <= v < (q + 1) * d,
                0 <= v < 256 * d,
                d >= 1,
        ;
    }
    let (b, k) = (q % 256, q / 256);
    let r = v - q * d;
    assert(v - b * d == k * (256 * d) + r && 0 <= r < 256 * d && 0 < 256 * d) by (nonlinear_arith)
        requires
            q == 256 * k + b,
            r == v - q * d,
            q * d <= v < (q + 1) * d,
            d >= 1,
    ;
    vstd::arithmetic::div_mod::lemma_fundamental_div_mod_converse(v - b * d, 256 * d, k, r);
    assert(r < d) by (nonlinear_arith)
        requires
            r == v - q * d,
            v < (q + 1) * d,
    ;
}

} // verus!
