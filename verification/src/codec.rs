//! Decoding of a coded image item: its slices, in the order in which they are handed to the bitstream
//! decoder.
use vstd::prelude::*;
use vstd::slice::{slice_subrange, slice_to_vec};
use crate::arith::min_int;
use crate::color::Cicp;
use crate::config::{SliceHeader, SliceType, Sps};
use crate::error::DecodeError;
use crate::formats::ImageBuffer;
use crate::heif::{HeifFile, HeifParseOptions};
use crate::limits::ParseLimits;
use crate::motion::RefEntry;
use crate::nal::{hvcc_nal_length_size, length_size, nal_at, nal_type, nal_type_of, next_nal};
use crate::tiles::Pps;
use crate::yuv::{NativeYuvPlanes, YuvPlanes};

verus! {

/// The components that image decoding rests on: the container parser, the bitstream decoder and the
/// colour conversion. Nothing is promised of what they return.
pub trait Codec {
    /// A picture under reconstruction.
    type Picture;

    /// Parses the container.
    fn container(
        &self,
        file: &[u8],
        limits: &ParseLimits,
        options: HeifParseOptions,
    ) -> Result<HeifFile, DecodeError>;

    /// Parses a decoder configuration record.
    fn param_sets(&self, hvcc: &[u8]) -> Result<(Sps, Pps), DecodeError>;

    /// Removes the emulation prevention bytes of a NAL unit.
    fn unescape(&self, nal: &[u8]) -> Vec<u8>;

    /// Parses a slice header.
    fn slice_header(&self, rbsp: &[u8], sps: &Sps, pps: &Pps, nal_type: u8) -> Result<
        SliceHeader,
        DecodeError,
    >;

    /// Where the substreams of a slice start, counted from its entropy-coded data.
    fn substreams(&self, nal: &[u8], hdr: &SliceHeader, rbsp_len: usize) -> Vec<usize>;

    /// The reference lists of a slice that can refer to `current` only.
    fn reference_lists(&self, current: RefEntry, hdr: &SliceHeader) -> Result<
        (Vec<RefEntry>, Vec<RefEntry>),
        DecodeError,
    >;

    /// Starts a picture with its first slice.
    fn start(&self, cabac: &[u8], sps: &Sps, pps: &Pps, hdr: &SliceHeader) -> Result<
        Self::Picture,
        DecodeError,
    >;

    /// Installs reference lists.
    fn set_references(
        &self,
        picture: Self::Picture,
        list0: Vec<RefEntry>,
        list1: Vec<RefEntry>,
    ) -> Self::Picture;

    /// Decodes the picture by rows in parallel, if that is possible; says whether it was.
    fn wavefront(&self, picture: Self::Picture, rbsp: &[u8], nal: &[u8], hdr: &SliceHeader) -> Result<
        (Self::Picture, bool),
        DecodeError,
    >;

    /// Decodes the first slice.
    fn slice(&self, picture: Self::Picture, address: usize, starts: Option<(&[u8], &[usize])>) -> Result<
        Self::Picture,
        DecodeError,
    >;

    /// Decodes a further slice segment.
    fn segment(&self, picture: Self::Picture, cabac: &[u8], hdr: &SliceHeader, starts: &[usize]) -> Result<
        Self::Picture,
        DecodeError,
    >;

    /// Filters the picture and hands out its planes in 16-bit samples.
    fn finish_wide(&self, picture: Self::Picture, parallel: bool) -> Result<YuvPlanes, DecodeError>;

    /// Filters the picture and hands out its planes in the narrowest sample type.
    fn finish_native(&self, picture: Self::Picture, parallel: bool) -> Result<
        NativeYuvPlanes,
        DecodeError,
    >;

    /// Converts a window of a picture to interleaved pixels.
    fn to_rgb(
        &self,
        planes: &YuvPlanes,
        width: usize,
        height: usize,
        left: usize,
        top: usize,
        color: &Cicp,
        parallel: bool,
    ) -> Result<ImageBuffer, DecodeError>;
}

/// `r` is what parsing the configuration record gives.
pub open spec fn configures<C: Codec>(
    codec: &C,
    hvcc: Seq<u8>,
    r: Result<(Sps, Pps), DecodeError>,
) -> bool {
    exists|h: &[u8]|
        #![trigger call_ensures(C::param_sets, (codec, h), r)]
        h@ == hvcc && call_ensures(C::param_sets, (codec, h), r)
}

/// `rbsp` is the payload of a NAL unit.
pub open spec fn unescapes<C: Codec>(codec: &C, nal: Seq<u8>, rbsp: Seq<u8>) -> bool {
    exists|n: &[u8], v: Vec<u8>|
        #![trigger call_ensures(C::unescape, (codec, n), v)]
        n@ == nal && v@ == rbsp && call_ensures(C::unescape, (codec, n), v)
}

/// `r` is what parsing a slice header gives.
pub open spec fn heads<C: Codec>(
    codec: &C,
    rbsp: Seq<u8>,
    sps: Sps,
    pps: Pps,
    kind: u8,
    r: Result<SliceHeader, DecodeError>,
) -> bool {
    exists|b: &[u8]|
        #![trigger call_ensures(C::slice_header, (codec, b, &sps, &pps, kind), r)]
        b@ == rbsp && call_ensures(C::slice_header, (codec, b, &sps, &pps, kind), r)
}

/// A slice of the item.
pub struct Slice {
    pub source: Seq<u8>,
    pub rbsp: Seq<u8>,
    pub hdr: SliceHeader,
}

impl Slice {
    /// The entropy-coded data.
    pub open spec fn cabac(self) -> Seq<u8> {
        self.rbsp.subrange(
            min_int(self.hdr.cabac_offset as int, self.rbsp.len() as int),
            self.rbsp.len() as int,
        )
    }
}

struct StillSlice {
    source: Vec<u8>,
    rbsp: Vec<u8>,
    hdr: SliceHeader,
}

impl StillSlice {
    spec fn model(self) -> Slice {
        Slice { source: self.source@, rbsp: self.rbsp@, hdr: self.hdr }
    }

    fn cabac(&self) -> (r: &[u8])
        ensures
            r@ == self.model().cabac(),
    {
        let len: usize = self.rbsp.len();
        let off: usize = if self.hdr.cabac_offset < len {
            self.hdr.cabac_offset
        } else {
            len
        };
        slice_subrange(self.rbsp.as_slice(), off, len)
    }
}

/// `r` is what collecting the slices of a sample gives, from `pos` on and after the slices `out`.
/// NAL units of types above 31 hold no slices.
pub open spec fn collects<C: Codec>(
    codec: &C,
    sample: Seq<u8>,
    size: int,
    sps: Sps,
    pps: Pps,
    pos: int,
    out: Seq<Slice>,
    r: Result<Seq<Slice>, DecodeError>,
) -> bool
    decreases sample.len() - pos,
{
    if pos >= sample.len() {
        r == Ok::<Seq<Slice>, DecodeError>(out)
    } else {
        match nal_at(sample, pos, size) {
            Err(e) => r == Err::<Seq<Slice>, DecodeError>(e),
            Ok((s, e)) => if e <= pos {
                false
            } else {
                let kind = nal_type(sample[s]);
                let source = sample.subrange(s, e);
                if kind > 31 {
                    collects(codec, sample, size, sps, pps, e, out, r)
                } else {
                    exists|rbsp: Seq<u8>, h: Result<SliceHeader, DecodeError>|
                        {
                            &&& #[trigger] unescapes(codec, source, rbsp)
                            &&& #[trigger] heads(codec, rbsp, sps, pps, kind, h)
                            &&& match h {
                                Err(x) => r == Err::<Seq<Slice>, DecodeError>(x),
                                Ok(hdr) => collects(
                                    codec,
                                    sample,
                                    size,
                                    sps,
                                    pps,
                                    e,
                                    out.push(Slice { source, rbsp, hdr }),
                                    r,
                                ),
                            }
                        }
                }
            },
        }
    }
}

spec fn models(s: Seq<StillSlice>) -> Seq<Slice> {
    Seq::new(s.len(), |i: int| s[i].model())
}

/// Collects the slices of a sample.
fn collect_slices<C: Codec>(
    codec: &C,
    sample: &[u8],
    size: usize,
    sps: &Sps,
    pps: &Pps,
) -> (r: Result<Vec<StillSlice>, DecodeError>)
    requires
        1 <= size <= 4,
    ensures
        collects(
            codec,
            sample@,
            size as int,
            *sps,
            *pps,
            0,
            Seq::empty(),
            match r {
                Ok(v) => Ok(models(v@)),
                Err(e) => Err(e),
            },
        ),
{
    let mut slices: Vec<StillSlice> = Vec::new();
    let mut pos: usize = 0;
    assert(models(slices@) =~= Seq::<Slice>::empty());
    while pos < sample.len()
        invariant
            1 <= size <= 4,
            forall|r: Result<Seq<Slice>, DecodeError>|
                collects(
                    codec,
                    sample@,
                    size as int,
                    *sps,
                    *pps,
                    pos as int,
                    models(slices@),
                    r,
                ) ==> #[trigger] collects(
                    codec,
                    sample@,
                    size as int,
                    *sps,
                    *pps,
                    0,
                    Seq::empty(),
                    r,
                ),
        decreases sample@.len() - pos,
    {
        let ghost before = models(slices@);
        let (s, e): (usize, usize) = match next_nal(sample, pos, size) {
            Ok(t) => t,
            Err(x) => {
                proof {
                    let out: Result<Seq<Slice>, DecodeError> = Err(x);
                    assert(collects(
                        codec,
                        sample@,
                        size as int,
                        *sps,
                        *pps,
                        pos as int,
                        before,
                        out,
                    ));
                }
                return Err(x);
            },
        };
        let kind: u8 = nal_type_of(sample[s]);
        if kind <= 31 {
            let nal: &[u8] = slice_subrange(sample, s, e);
            let source: Vec<u8> = slice_to_vec(nal);
            let rbsp: Vec<u8> = codec.unescape(source.as_slice());
            let h: Result<SliceHeader, DecodeError> = codec.slice_header(
                rbsp.as_slice(),
                sps,
                pps,
                kind,
            );
            let ghost src = sample@.subrange(s as int, e as int);
            assert(source@ =~= src);
            assert(unescapes(codec, src, rbsp@));
            assert(heads(codec, rbsp@, *sps, *pps, kind, h));
            match h {
                Err(x) => {
                    proof {
                        let out: Result<Seq<Slice>, DecodeError> = Err(x);
                        assert(collects(
                            codec,
                            sample@,
                            size as int,
                            *sps,
                            *pps,
                            pos as int,
                            before,
                            out,
                        ));
                    }
                    return Err(x);
                },
                Ok(hdr) => {
                    slices.push(StillSlice { source, rbsp, hdr });
                    assert(models(slices@) =~= before.push(Slice { source: src, rbsp: rbsp@, hdr }));
                },
            }
        }
        pos = e;
    }
    proof {
        let out: Result<Seq<Slice>, DecodeError> = Ok(models(slices@));
        assert(collects(
            codec,
            sample@,
            size as int,
            *sps,
            *pps,
            pos as int,
            models(slices@),
            out,
        ));
    }
    Ok(slices)
}

/// The current picture as a reference: a long-term picture with order count 0.
pub open spec fn current_picture() -> RefEntry {
    RefEntry { _dpb_index: usize::MAX, poc: 0, long_term: true }
}

/// `r` is the picture with the references of a slice installed. A still picture has no other
/// pictures to refer to, so there is something to install only where it may refer to itself.
pub open spec fn refers<C: Codec>(
    codec: &C,
    sps: Sps,
    pps: Pps,
    hdr: SliceHeader,
    picture: C::Picture,
    r: Result<C::Picture, DecodeError>,
) -> bool {
    if sps.curr_pic_ref_enabled && pps.curr_pic_ref_enabled {
        exists|l: Result<(Vec<RefEntry>, Vec<RefEntry>), DecodeError>|
            {
                &&& #[trigger] call_ensures(
                    C::reference_lists,
                    (codec, current_picture(), &hdr),
                    l,
                )
                &&& match l {
                    Err(e) => r == Err::<C::Picture, DecodeError>(e),
                    Ok((l0, l1)) => r matches Ok(p) && call_ensures(
                        C::set_references,
                        (codec, picture, l0, l1),
                        p,
                    ),
                }
            }
    } else {
        r == Ok::<C::Picture, DecodeError>(picture)
    }
}

/// Installs the references of a slice.
fn configure_still_inter_state<C: Codec>(
    codec: &C,
    picture: C::Picture,
    sps: &Sps,
    pps: &Pps,
    hdr: &SliceHeader,
) -> (r: Result<C::Picture, DecodeError>)
    ensures
        refers(codec, *sps, *pps, *hdr, picture, r),
{
    if !(sps.curr_pic_ref_enabled && pps.curr_pic_ref_enabled) {
        return Ok(picture);
    }
    let current: RefEntry = RefEntry { _dpb_index: usize::MAX, poc: 0, long_term: true };
    match codec.reference_lists(current, hdr) {
        Err(e) => Err(e),
        Ok((list0, list1)) => Ok(codec.set_references(picture, list0, list1)),
    }
}

/// `starts` are the starts of the substreams of a slice; one without entry points has none.
pub open spec fn substream_starts<C: Codec>(codec: &C, slice: Slice, starts: Seq<usize>) -> bool {
    if slice.hdr.entry_points@.len() == 0 {
        starts == Seq::<usize>::empty()
    } else {
        exists|n: &[u8], v: Vec<usize>|
            #![trigger call_ensures(
                C::substreams,
                (codec, n, &slice.hdr, slice.rbsp.len() as usize),
                v,
            )]
            n@ == slice.source && v@ == starts && call_ensures(
                C::substreams,
                (codec, n, &slice.hdr, slice.rbsp.len() as usize),
                v,
            )
    }
}

fn substream_starts_of<C: Codec>(codec: &C, slice: &StillSlice) -> (r: Vec<usize>)
    ensures
        substream_starts(codec, slice.model(), r@),
{
    if slice.hdr.entry_points.len() == 0 {
        let none: Vec<usize> = Vec::new();
        assert(none@ =~= Seq::<usize>::empty());
        none
    } else {
        codec.substreams(slice.source.as_slice(), &slice.hdr, slice.rbsp.len())
    }
}

/// `r` is the picture after its first slice was decoded on its own.
pub open spec fn decodes_slice<C: Codec>(
    codec: &C,
    slice: Slice,
    starts: Seq<usize>,
    picture: C::Picture,
    r: Result<C::Picture, DecodeError>,
) -> bool {
    if starts.len() == 0 {
        call_ensures(
            C::slice,
            (
                codec,
                picture,
                slice.hdr.slice_segment_address,
                None::<(&[u8], &[usize])>,
            ),
            r,
        )
    } else {
        exists|b: &[u8], s: &[usize]|
            #![trigger call_ensures(
                C::slice,
                (codec, picture, slice.hdr.slice_segment_address, Some((b, s))),
                r,
            )]
            b@ == slice.cabac() && s@ == starts && call_ensures(
                C::slice,
                (codec, picture, slice.hdr.slice_segment_address, Some((b, s))),
                r,
            )
    }
}

/// `r` is what decoding by rows gives.
pub open spec fn waves<C: Codec>(
    codec: &C,
    slice: Slice,
    picture: C::Picture,
    r: Result<(C::Picture, bool), DecodeError>,
) -> bool {
    exists|b: &[u8], n: &[u8]|
        #![trigger call_ensures(C::wavefront, (codec, picture, b, n, &slice.hdr), r)]
        b@ == slice.rbsp && n@ == slice.source && call_ensures(
            C::wavefront,
            (codec, picture, b, n, &slice.hdr),
            r,
        )
}

/// `r` is the picture after its first slice. Decoding by rows is tried for a picture that is a
/// single intra slice, if threads are at hand.
pub open spec fn decodes_first<C: Codec>(
    codec: &C,
    slices: Seq<Slice>,
    parallel: bool,
    picture: C::Picture,
    r: Result<C::Picture, DecodeError>,
) -> bool {
    exists|starts: Seq<usize>|
        {
            &&& #[trigger] substream_starts(codec, slices[0], starts)
            &&& if slices.len() == 1 && slices[0].hdr.slice_type is I && parallel {
                exists|w: Result<(C::Picture, bool), DecodeError>|
                    {
                        &&& #[trigger] waves(codec, slices[0], picture, w)
                        &&& match w {
                            Err(e) => r == Err::<C::Picture, DecodeError>(e),
                            Ok((p, true)) => r == Ok::<C::Picture, DecodeError>(p),
                            Ok((p, false)) => decodes_slice(codec, slices[0], starts, p, r),
                        }
                    }
            } else {
                decodes_slice(codec, slices[0], starts, picture, r)
            }
        }
}

fn decode_slice<C: Codec>(
    codec: &C,
    slice: &StillSlice,
    starts: &Vec<usize>,
    picture: C::Picture,
) -> (r: Result<C::Picture, DecodeError>)
    ensures
        decodes_slice(codec, slice.model(), starts@, picture, r),
{
    if starts.len() == 0 {
        codec.slice(picture, slice.hdr.slice_segment_address, None)
    } else {
        codec.slice(
            picture,
            slice.hdr.slice_segment_address,
            Some((slice.cabac(), starts.as_slice())),
        )
    }
}

fn decode_first<C: Codec>(
    codec: &C,
    slices: &Vec<StillSlice>,
    parallel: bool,
    picture: C::Picture,
) -> (r: Result<C::Picture, DecodeError>)
    requires
        slices@.len() > 0,
    ensures
        decodes_first(codec, models(slices@), parallel, picture, r),
{
    let first: &StillSlice = &slices[0];
    assert(models(slices@)[0] == first.model());
    let starts: Vec<usize> = substream_starts_of(codec, first);
    assert(substream_starts(codec, first.model(), starts@));
    if slices.len() == 1 && first.hdr.slice_type == SliceType::I && parallel {
        let w: Result<(C::Picture, bool), DecodeError> = codec.wavefront(
            picture,
            first.rbsp.as_slice(),
            first.source.as_slice(),
            &first.hdr,
        );
        assert(waves(codec, first.model(), picture, w));
        match w {
            Err(e) => Err(e),
            Ok((p, ran)) => if ran {
                Ok(p)
            } else {
                decode_slice(codec, first, &starts, p)
            },
        }
    } else {
        decode_slice(codec, first, &starts, picture)
    }
}

/// `r` is the picture after a further segment.
pub open spec fn decodes_segment<C: Codec>(
    codec: &C,
    slice: Slice,
    picture: C::Picture,
    r: Result<C::Picture, DecodeError>,
) -> bool {
    exists|starts: Seq<usize>, b: &[u8], s: &[usize]|
        {
            &&& #[trigger] substream_starts(codec, slice, starts)
            &&& b@ == slice.cabac()
            &&& s@ == starts
            &&& #[trigger] call_ensures(C::segment, (codec, picture, b, &slice.hdr, s), r)
        }
}

/// `r` is the picture that a further slice is decoded into: independent segments have references of
/// their own.
pub open spec fn prepares<C: Codec>(
    codec: &C,
    sps: Sps,
    pps: Pps,
    slice: Slice,
    picture: C::Picture,
    r: Result<C::Picture, DecodeError>,
) -> bool {
    if slice.hdr.dependent_slice_segment {
        r == Ok::<C::Picture, DecodeError>(picture)
    } else {
        refers(codec, sps, pps, slice.hdr, picture, r)
    }
}

/// `r` is the picture after the segments from number `i` on. The start of another picture is an
/// error.
pub open spec fn decodes_rest<C: Codec>(
    codec: &C,
    sps: Sps,
    pps: Pps,
    slices: Seq<Slice>,
    i: int,
    picture: C::Picture,
    r: Result<C::Picture, DecodeError>,
) -> bool
    decreases slices.len() - i,
{
    if i >= slices.len() {
        r == Ok::<C::Picture, DecodeError>(picture)
    } else if slices[i].hdr.first_slice_in_pic {
        r == Err::<C::Picture, DecodeError>(
            DecodeError::Bitstream("HEIF image item contains more than one coded picture"),
        )
    } else {
        exists|q: Result<C::Picture, DecodeError>|
            {
                &&& #[trigger] prepares(codec, sps, pps, slices[i], picture, q)
                &&& match q {
                    Err(e) => r == Err::<C::Picture, DecodeError>(e),
                    Ok(p) => exists|u: Result<C::Picture, DecodeError>|
                        {
                            &&& #[trigger] decodes_segment(codec, slices[i], p, u)
                            &&& match u {
                                Err(e) => r == Err::<C::Picture, DecodeError>(e),
                                Ok(p2) => decodes_rest(codec, sps, pps, slices, i + 1, p2, r),
                            }
                        },
                }
            }
    }
}

fn decode_segment<C: Codec>(codec: &C, slice: &StillSlice, picture: C::Picture) -> (r: Result<
    C::Picture,
    DecodeError,
>)
    ensures
        decodes_segment(codec, slice.model(), picture, r),
{
    let starts: Vec<usize> = substream_starts_of(codec, slice);
    assert(substream_starts(codec, slice.model(), starts@));
    codec.segment(picture, slice.cabac(), &slice.hdr, starts.as_slice())
}

fn decode_rest<C: Codec>(
    codec: &C,
    sps: &Sps,
    pps: &Pps,
    slices: &Vec<StillSlice>,
    picture: C::Picture,
) -> (r: Result<C::Picture, DecodeError>)
    ensures
        decodes_rest(codec, *sps, *pps, models(slices@), 1, picture, r),
{
    let ghost all = models(slices@);
    let mut cur: C::Picture = picture;
    let mut i: usize = 1;
    while i < slices.len()
        invariant
            1 <= i,
            all == models(slices@),
            forall|r: Result<C::Picture, DecodeError>|
                decodes_rest(codec, *sps, *pps, all, i as int, cur, r)
                    ==> #[trigger] decodes_rest(codec, *sps, *pps, all, 1, picture, r),
        decreases slices@.len() - i,
    {
        let segment: &StillSlice = &slices[i];
        let ghost slice = all[i as int];
        assert(slice == segment.model());
        let ghost before = cur;
        if segment.hdr.first_slice_in_pic {
            let r: Result<C::Picture, DecodeError> = Err(
                DecodeError::Bitstream("HEIF image item contains more than one coded picture"),
            );
            assert(decodes_rest(codec, *sps, *pps, all, i as int, before, r));
            return r;
        }
        let q: Result<C::Picture, DecodeError> = if segment.hdr.dependent_slice_segment {
            Ok(cur)
        } else {
            configure_still_inter_state(codec, cur, sps, pps, &segment.hdr)
        };
        assert(prepares(codec, *sps, *pps, slice, before, q));
        let p: C::Picture = match q {
            Ok(p) => p,
            Err(e) => {
                let r: Result<C::Picture, DecodeError> = Err(e);
                assert(decodes_rest(codec, *sps, *pps, all, i as int, before, r));
                return r;
            },
        };
        let u: Result<C::Picture, DecodeError> = decode_segment(codec, segment, p);
        assert(decodes_segment(codec, slice, p, u));
        match u {
            Err(e) => {
                let r: Result<C::Picture, DecodeError> = Err(e);
                assert(decodes_rest(codec, *sps, *pps, all, i as int, before, r));
                return r;
            },
            Ok(p2) => {
                cur = p2;
            },
        }
        proof {
            assert forall|r: Result<C::Picture, DecodeError>|
                decodes_rest(codec, *sps, *pps, all, i + 1, cur, r)
                    implies #[trigger] decodes_rest(codec, *sps, *pps, all, 1, picture, r) by {
                assert(decodes_rest(codec, *sps, *pps, all, i as int, before, r));
            }
        }
        i = i + 1;
    }
    let r: Result<C::Picture, DecodeError> = Ok(cur);
    assert(decodes_rest(codec, *sps, *pps, all, i as int, cur, r));
    r
}

/// `r` is the picture that the slices make: it begins with an independent first slice, and the
/// others follow.
pub open spec fn decodes_picture<C: Codec>(
    codec: &C,
    sps: Sps,
    pps: Pps,
    slices: Seq<Slice>,
    parallel: bool,
    r: Result<C::Picture, DecodeError>,
) -> bool {
    if slices.len() == 0 {
        r == Err::<C::Picture, DecodeError>(DecodeError::Bitstream("no VCL slice NAL found"))
    } else if !slices[0].hdr.first_slice_in_pic || slices[0].hdr.dependent_slice_segment {
        r == Err::<C::Picture, DecodeError>(
            DecodeError::Bitstream("HEIF item does not begin with an independent first slice"),
        )
    } else {
        exists|b: &[u8], p0: Result<C::Picture, DecodeError>|
            {
                &&& b@ == slices[0].cabac()
                &&& #[trigger] call_ensures(C::start, (codec, b, &sps, &pps, &slices[0].hdr), p0)
                &&& match p0 {
                    Err(e) => r == Err::<C::Picture, DecodeError>(e),
                    Ok(p0) => decodes_started(codec, sps, pps, slices, parallel, p0, r),
                }
            }
    }
}

/// `r` is the picture that the slices make after it was started.
pub open spec fn decodes_started<C: Codec>(
    codec: &C,
    sps: Sps,
    pps: Pps,
    slices: Seq<Slice>,
    parallel: bool,
    picture: C::Picture,
    r: Result<C::Picture, DecodeError>,
) -> bool {
    exists|q: Result<C::Picture, DecodeError>|
        {
            &&& #[trigger] refers(codec, sps, pps, slices[0].hdr, picture, q)
            &&& match q {
                Err(e) => r == Err::<C::Picture, DecodeError>(e),
                Ok(p1) => exists|t: Result<C::Picture, DecodeError>|
                    {
                        &&& #[trigger] decodes_first(codec, slices, parallel, p1, t)
                        &&& match t {
                            Err(e) => r == Err::<C::Picture, DecodeError>(e),
                            Ok(p2) => decodes_rest(codec, sps, pps, slices, 1, p2, r),
                        }
                    },
            }
        }
}

fn decode_picture<C: Codec>(
    codec: &C,
    sps: &Sps,
    pps: &Pps,
    slices: &Vec<StillSlice>,
    parallel: bool,
) -> (r: Result<C::Picture, DecodeError>)
    ensures
        decodes_picture(codec, *sps, *pps, models(slices@), parallel, r),
{
    if slices.len() == 0 {
        return Err(DecodeError::Bitstream("no VCL slice NAL found"));
    }
    let ghost all = models(slices@);
    let first: &StillSlice = &slices[0];
    assert(all[0] == first.model());
    if !first.hdr.first_slice_in_pic || first.hdr.dependent_slice_segment {
        return Err(
            DecodeError::Bitstream("HEIF item does not begin with an independent first slice"),
        );
    }
    let p0: C::Picture = match codec.start(first.cabac(), sps, pps, &first.hdr) {
        Ok(p) => p,
        Err(e) => return Err(e),
    };
    let q: Result<C::Picture, DecodeError> = configure_still_inter_state(
        codec,
        p0,
        sps,
        pps,
        &first.hdr,
    );
    assert(refers(codec, *sps, *pps, all[0].hdr, p0, q));
    let p1: C::Picture = match q {
        Ok(p) => p,
        Err(e) => {
            let r: Result<C::Picture, DecodeError> = Err(e);
            assert(decodes_started(codec, *sps, *pps, all, parallel, p0, r));
            return r;
        },
    };
    let t: Result<C::Picture, DecodeError> = decode_first(codec, slices, parallel, p1);
    assert(decodes_first(codec, all, parallel, p1, t));
    match t {
        Err(e) => {
            let r: Result<C::Picture, DecodeError> = Err(e);
            assert(decodes_started(codec, *sps, *pps, all, parallel, p0, r));
            r
        },
        Ok(p2) => {
            let r: Result<C::Picture, DecodeError> = decode_rest(codec, sps, pps, slices, p2);
            assert(decodes_started(codec, *sps, *pps, all, parallel, p0, r));
            r
        },
    }
}

/// `r` is the decoded picture of an item, not yet filtered, with the colour signalling of its
/// sequence. All slices are collected before the first is decoded.
pub open spec fn decodes_item<C: Codec>(
    codec: &C,
    sample: Seq<u8>,
    hvcc: Seq<u8>,
    parallel: bool,
    r: Result<(C::Picture, Cicp), DecodeError>,
) -> bool {
    exists|ps: Result<(Sps, Pps), DecodeError>|
        {
            &&& #[trigger] configures(codec, hvcc, ps)
            &&& match ps {
                Err(e) => r == Err::<(C::Picture, Cicp), DecodeError>(e),
                Ok((sps, pps)) => match length_size(hvcc) {
                    Err(e) => r == Err::<(C::Picture, Cicp), DecodeError>(e),
                    Ok(size) => decodes_sample(codec, sample, size as int, sps, pps, parallel, r),
                },
            }
        }
}

/// `r` is the decoded picture of a sample with known parameter sets.
pub open spec fn decodes_sample<C: Codec>(
    codec: &C,
    sample: Seq<u8>,
    size: int,
    sps: Sps,
    pps: Pps,
    parallel: bool,
    r: Result<(C::Picture, Cicp), DecodeError>,
) -> bool {
    exists|sl: Result<Seq<Slice>, DecodeError>|
        {
            &&& #[trigger] collects(codec, sample, size, sps, pps, 0, Seq::empty(), sl)
            &&& match sl {
                Err(e) => r == Err::<(C::Picture, Cicp), DecodeError>(e),
                Ok(slices) => decodes_slices(codec, sps, pps, slices, parallel, r),
            }
        }
}

/// `r` is the picture that the slices make, with the colour signalling of the sequence.
pub open spec fn decodes_slices<C: Codec>(
    codec: &C,
    sps: Sps,
    pps: Pps,
    slices: Seq<Slice>,
    parallel: bool,
    r: Result<(C::Picture, Cicp), DecodeError>,
) -> bool {
    exists|p: Result<C::Picture, DecodeError>|
        {
            &&& #[trigger] decodes_picture(codec, sps, pps, slices, parallel, p)
            &&& r == match p {
                Ok(picture) => Ok::<(C::Picture, Cicp), DecodeError>((picture, sps.color())),
                Err(e) => Err(e),
            }
        }
}

/// Decodes the slices of an item into a picture that is left to be filtered.
pub fn decode_hevc_item_as<C: Codec>(codec: &C, sample: &[u8], hvcc: &[u8], parallel: bool) -> (r:
    Result<(C::Picture, Cicp), DecodeError>)
    ensures
        decodes_item(codec, sample@, hvcc@, parallel, r),
{
    let ps: Result<(Sps, Pps), DecodeError> = codec.param_sets(hvcc);
    assert(configures(codec, hvcc@, ps));
    let (sps, pps): (Sps, Pps) = match ps {
        Ok(t) => t,
        Err(e) => return Err(e),
    };
    let size: usize = match hvcc_nal_length_size(hvcc) {
        Ok(n) => n,
        Err(e) => return Err(e),
    };
    let slices: Vec<StillSlice> = match collect_slices(codec, sample, size, &sps, &pps) {
        Ok(v) => v,
        Err(e) => {
            let r: Result<(C::Picture, Cicp), DecodeError> = Err(e);
            assert(decodes_sample(codec, sample@, size as int, sps, pps, parallel, r));
            return r;
        },
    };
    let p: Result<C::Picture, DecodeError> = decode_picture(codec, &sps, &pps, &slices, parallel);
    proof {
        let sl: Result<Seq<Slice>, DecodeError> = Ok(models(slices@));
        assert(collects(codec, sample@, size as int, sps, pps, 0, Seq::empty(), sl));
        assert(decodes_picture(codec, sps, pps, models(slices@), parallel, p));
    }
    let r: Result<(C::Picture, Cicp), DecodeError> = match p {
        Ok(picture) => Ok((picture, sps.vui_color())),
        Err(e) => Err(e),
    };
    assert(decodes_slices(codec, sps, pps, models(slices@), parallel, r));
    assert(decodes_sample(codec, sample@, size as int, sps, pps, parallel, r));
    r
}

/// `r` is the filtered picture of an item in 16-bit samples.
pub open spec fn decodes_wide<C: Codec>(
    codec: &C,
    sample: Seq<u8>,
    hvcc: Seq<u8>,
    parallel: bool,
    r: Result<(YuvPlanes, Cicp), DecodeError>,
) -> bool {
    exists|d: Result<(C::Picture, Cicp), DecodeError>|
        {
            &&& #[trigger] decodes_item(codec, sample, hvcc, parallel, d)
            &&& match d {
                Err(e) => r == Err::<(YuvPlanes, Cicp), DecodeError>(e),
                Ok((picture, color)) => exists|f: Result<YuvPlanes, DecodeError>|
                    {
                        &&& #[trigger] call_ensures(C::finish_wide, (codec, picture, parallel), f)
                        &&& r == match f {
                            Ok(planes) => Ok::<(YuvPlanes, Cicp), DecodeError>((planes, color)),
                            Err(e) => Err(e),
                        }
                    },
            }
        }
}

/// Decodes an item into 16-bit planes.
pub fn decode_hevc_item<C: Codec>(codec: &C, sample: &[u8], hvcc: &[u8], parallel: bool) -> (r:
    Result<(YuvPlanes, Cicp), DecodeError>)
    ensures
        decodes_wide(codec, sample@, hvcc@, parallel, r),
{
    let d: Result<(C::Picture, Cicp), DecodeError> = decode_hevc_item_as(
        codec,
        sample,
        hvcc,
        parallel,
    );
    assert(decodes_item(codec, sample@, hvcc@, parallel, d));
    match d {
        Err(e) => Err(e),
        Ok((picture, color)) => match codec.finish_wide(picture, parallel) {
            Ok(planes) => Ok((planes, color)),
            Err(e) => Err(e),
        },
    }
}

/// `r` is the filtered picture of an item in the narrowest sample type.
pub open spec fn decodes_native<C: Codec>(
    codec: &C,
    sample: Seq<u8>,
    hvcc: Seq<u8>,
    parallel: bool,
    r: Result<(NativeYuvPlanes, Cicp), DecodeError>,
) -> bool {
    exists|d: Result<(C::Picture, Cicp), DecodeError>|
        {
            &&& #[trigger] decodes_item(codec, sample, hvcc, parallel, d)
            &&& match d {
                Err(e) => r == Err::<(NativeYuvPlanes, Cicp), DecodeError>(e),
                Ok((picture, color)) => exists|f: Result<NativeYuvPlanes, DecodeError>|
                    {
                        &&& #[trigger] call_ensures(C::finish_native, (codec, picture, parallel), f)
                        &&& r == match f {
                            Ok(planes) => Ok::<(NativeYuvPlanes, Cicp), DecodeError>(
                                (planes, color),
                            ),
                            Err(e) => Err(e),
                        }
                    },
            }
        }
}

/// Decodes an item into planes of the narrowest sample type.
pub fn decode_hevc_item_native<C: Codec>(codec: &C, sample: &[u8], hvcc: &[u8], parallel: bool) -> (r:
    Result<(NativeYuvPlanes, Cicp), DecodeError>)
    ensures
        decodes_native(codec, sample@, hvcc@, parallel, r),
{
    let d: Result<(C::Picture, Cicp), DecodeError> = decode_hevc_item_as(
        codec,
        sample,
        hvcc,
        parallel,
    );
    assert(decodes_item(codec, sample@, hvcc@, parallel, d));
    match d {
        Err(e) => Err(e),
        Ok((picture, color)) => match codec.finish_native(picture, parallel) {
            Ok(planes) => Ok((planes, color)),
            Err(e) => Err(e),
        },
    }
}

/// The entropy-coded data of a slice start at the offset of its header.
pub proof fn entropy_coded_data_follow_the_header(s: Slice, i: int)
    requires
        s.hdr.cabac_offset <= s.rbsp.len(),
        0 <= i,
        s.hdr.cabac_offset + i < s.rbsp.len(),
    ensures
        s.cabac().len() == s.rbsp.len() - s.hdr.cabac_offset,
        s.cabac()[i] == s.rbsp[s.hdr.cabac_offset + i],
{
}

/// Units of types 0 to 31 hold slices, one each; units of other types are passed over.
pub proof fn only_slices_are_collected<C: Codec>(
    codec: &C,
    sample: Seq<u8>,
    size: int,
    sps: Sps,
    pps: Pps,
    pos: int,
    out: Seq<Slice>,
    r: Result<Seq<Slice>, DecodeError>,
    start: int,
    end: int,
)
    requires
        collects(codec, sample, size, sps, pps, pos, out, r),
        0 <= pos < sample.len(),
        nal_at(sample, pos, size) == Ok::<(int, int), DecodeError>((start, end)),
        pos < end,
    ensures
        nal_type(sample[start]) >= 32 ==> collects(
            codec,
            sample,
            size,
            sps,
            pps,
            end,
            out,
            r,
        ),
        nal_type(sample[start]) < 32 && r is Ok ==> exists|s: Slice|
            {
                &&& s.source == sample.subrange(start, end)
                &&& #[trigger] collects(codec, sample, size, sps, pps, end, out.push(s), r)
            },
{
    let kind = nal_type(sample[start]);
    let source = sample.subrange(start, end);
    if kind < 32 && r is Ok {
        let (rbsp, h) = choose|rbsp: Seq<u8>, h: Result<SliceHeader, DecodeError>|
            {
                &&& #[trigger] unescapes(codec, source, rbsp)
                &&& #[trigger] heads(codec, rbsp, sps, pps, kind, h)
                &&& match h {
                    Err(x) => r == Err::<Seq<Slice>, DecodeError>(x),
                    Ok(hdr) => collects(
                        codec,
                        sample,
                        size,
                        sps,
                        pps,
                        end,
                        out.push(Slice { source, rbsp, hdr }),
                        r,
                    ),
                }
            };
        let s = Slice { source, rbsp, hdr: h->Ok_0 };
        assert(collects(codec, sample, size, sps, pps, end, out.push(s), r));
    }
}

/// An item holds exactly one coded picture, whose first slice stands on its own.
pub proof fn items_hold_one_picture<C: Codec>(
    codec: &C,
    sps: Sps,
    pps: Pps,
    slices: Seq<Slice>,
    parallel: bool,
    picture: C::Picture,
)
    requires
        decodes_picture(codec, sps, pps, slices, parallel, Ok(picture)),
    ensures
        slices.len() > 0,
        slices[0].hdr.first_slice_in_pic,
        !slices[0].hdr.dependent_slice_segment,
        forall|i: int| 1 <= i < slices.len() ==> !(#[trigger] slices[i]).hdr.first_slice_in_pic,
{
    let (b, p0) = choose|b: &[u8], p0: Result<C::Picture, DecodeError>|
        {
            &&& b@ == slices[0].cabac()
            &&& #[trigger] call_ensures(C::start, (codec, b, &sps, &pps, &slices[0].hdr), p0)
            &&& match p0 {
                Err(e) => false,
                Ok(p0) => decodes_started(codec, sps, pps, slices, parallel, p0, Ok(picture)),
            }
        };
    let q = choose|q: Result<C::Picture, DecodeError>|
        {
            &&& #[trigger] refers(codec, sps, pps, slices[0].hdr, p0->Ok_0, q)
            &&& match q {
                Err(e) => false,
                Ok(p1) => exists|t: Result<C::Picture, DecodeError>|
                    {
                        &&& #[trigger] decodes_first(codec, slices, parallel, p1, t)
                        &&& match t {
                            Err(e) => false,
                            Ok(p2) => decodes_rest(codec, sps, pps, slices, 1, p2, Ok(picture)),
                        }
                    },
            }
        };
    let t = choose|t: Result<C::Picture, DecodeError>|
        {
            &&& #[trigger] decodes_first(codec, slices, parallel, q->Ok_0, t)
            &&& match t {
                Err(e) => false,
                Ok(p2) => decodes_rest(codec, sps, pps, slices, 1, p2, Ok(picture)),
            }
        };
    assert forall|i: int| 1 <= i < slices.len() implies !(
    #[trigger] slices[i]).hdr.first_slice_in_pic by {
        lemma_rest_goes_on(codec, sps, pps, slices, 1, i, t->Ok_0, picture);
    }
}

proof fn lemma_rest_goes_on<C: Codec>(
    codec: &C,
    sps: Sps,
    pps: Pps,
    slices: Seq<Slice>,
    j: int,
    i: int,
    p: C::Picture,
    picture: C::Picture,
)
    requires
        0 <= j <= i < slices.len(),
        decodes_rest(codec, sps, pps, slices, j, p, Ok(picture)),
    ensures
        !slices[i].hdr.first_slice_in_pic,
    decreases i - j,
{
    if j < i {
        let q = choose|q: Result<C::Picture, DecodeError>|
            {
                &&& #[trigger] prepares(codec, sps, pps, slices[j], p, q)
                &&& match q {
                    Err(e) => false,
                    Ok(p) => exists|u: Result<C::Picture, DecodeError>|
                        {
                            &&& #[trigger] decodes_segment(codec, slices[j], p, u)
                            &&& match u {
                                Err(e) => false,
                                Ok(p2) => decodes_rest(
                                    codec,
                                    sps,
                                    pps,
                                    slices,
                                    j + 1,
                                    p2,
                                    Ok(picture),
                                ),
                            }
                        },
                }
            };
        let u = choose|u: Result<C::Picture, DecodeError>|
            {
                &&& #[trigger] decodes_segment(codec, slices[j], q->Ok_0, u)
                &&& match u {
                    Err(e) => false,
                    Ok(p2) => decodes_rest(codec, sps, pps, slices, j + 1, p2, Ok(picture)),
                }
            };
        lemma_rest_goes_on(codec, sps, pps, slices, j + 1, i, u->Ok_0, picture);
    }
}

/// Reference lists are set up only where both parameter sets let a picture refer to itself. The
/// current picture counts as a long-term picture of order 0.
pub proof fn pictures_refer_to_themselves_if_allowed<C: Codec>(
    codec: &C,
    sps: Sps,
    pps: Pps,
    slice: Slice,
    picture: C::Picture,
    r: Result<C::Picture, DecodeError>,
)
    ensures
        refers(codec, sps, pps, slice.hdr, picture, r) && !(sps.curr_pic_ref_enabled
            && pps.curr_pic_ref_enabled) ==> r == Ok::<C::Picture, DecodeError>(picture),
        prepares(codec, sps, pps, slice, picture, r) && slice.hdr.dependent_slice_segment ==> r
            == Ok::<C::Picture, DecodeError>(picture),
        current_picture().long_term,
        current_picture().poc == 0,
        current_picture()._dpb_index == usize::MAX,
{
}

/// The first slice is decoded row by row in parallel if that is asked for and it is the only one
/// and intra coded; otherwise in order.
pub proof fn single_intra_slices_may_run_in_parallel<C: Codec>(
    codec: &C,
    slices: Seq<Slice>,
    parallel: bool,
    picture: C::Picture,
    r: Result<C::Picture, DecodeError>,
)
    requires
        decodes_first(codec, slices, parallel, picture, r),
    ensures
        slices.len() == 1 && slices[0].hdr.slice_type is I && parallel ==> exists|
            w: Result<(C::Picture, bool), DecodeError>,
        |
            {
                &&& #[trigger] waves(codec, slices[0], picture, w)
                &&& w matches Ok((p, true)) ==> r == Ok::<C::Picture, DecodeError>(p)
                &&& w matches Err(e) ==> r == Err::<C::Picture, DecodeError>(e)
            },
        slices.len() != 1 || !(slices[0].hdr.slice_type is I) || !parallel ==> exists|
            starts: Seq<usize>,
        |
            {
                &&& #[trigger] substream_starts(codec, slices[0], starts)
                &&& decodes_slice(codec, slices[0], starts, picture, r)
            },
{
}

/// A slice without entry points has no substreams.
pub proof fn slices_without_entry_points_are_undivided<C: Codec>(
    codec: &C,
    slice: Slice,
    starts: Seq<usize>,
)
    requires
        substream_starts(codec, slice, starts),
        slice.hdr.entry_points@.len() == 0,
    ensures
        starts.len() == 0,
{
}

/// A decoded item comes with the colours of its parameter set.
pub proof fn items_have_the_colours_of_their_parameters<C: Codec>(
    codec: &C,
    sample: Seq<u8>,
    hvcc: Seq<u8>,
    parallel: bool,
    picture: C::Picture,
    color: Cicp,
)
    requires
        decodes_item(codec, sample, hvcc, parallel, Ok((picture, color))),
    ensures
        exists|sps: Sps, pps: Pps|
            #[trigger] configures(codec, hvcc, Ok::<(Sps, Pps), DecodeError>((sps, pps))) && color
                == sps.color(),
{
    let ps = choose|ps: Result<(Sps, Pps), DecodeError>|
        {
            &&& #[trigger] configures(codec, hvcc, ps)
            &&& match ps {
                Err(e) => false,
                Ok((sps, pps)) => match length_size(hvcc) {
                    Err(e) => false,
                    Ok(size) => decodes_sample(
                        codec,
                        sample,
                        size as int,
                        sps,
                        pps,
                        parallel,
                        Ok((picture, color)),
                    ),
                },
            }
        };
    let (sps, pps) = ps->Ok_0;
    assert(configures(codec, hvcc, Ok::<(Sps, Pps), DecodeError>((sps, pps))));
}

/// An item without slices, or one that does not begin with a slice of its own, is refused, and so is
/// one with a second picture.
pub proof fn other_items_are_refused<C: Codec>(
    codec: &C,
    sps: Sps,
    pps: Pps,
    slices: Seq<Slice>,
    parallel: bool,
    i: int,
    picture: C::Picture,
    r: Result<C::Picture, DecodeError>,
)
    ensures
        slices.len() == 0 && decodes_picture(codec, sps, pps, slices, parallel, r) ==> r == Err::<
            C::Picture,
            DecodeError,
        >(DecodeError::Bitstream("no VCL slice NAL found")),
        slices.len() > 0 && (!slices[0].hdr.first_slice_in_pic
            || slices[0].hdr.dependent_slice_segment) && decodes_picture(
            codec,
            sps,
            pps,
            slices,
            parallel,
            r,
        ) ==> r == Err::<C::Picture, DecodeError>(
            DecodeError::Bitstream("HEIF item does not begin with an independent first slice"),
        ),
        0 <= i < slices.len() && slices[i].hdr.first_slice_in_pic && decodes_rest(
            codec,
            sps,
            pps,
            slices,
            i,
            picture,
            r,
        ) ==> r == Err::<C::Picture, DecodeError>(
            DecodeError::Bitstream("HEIF image item contains more than one coded picture"),
        ),
{
}

} // verus!
