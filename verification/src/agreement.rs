//! How the decode entry points agree with each other: which settings matter to what, and what can be
//! said of two decodes if the components answer alike.
use vstd::prelude::*;
use crate::auxiliary::crops;
use crate::codec::{
    collects, configures, current_picture, decodes_first, decodes_item, decodes_native,
    decodes_picture,
    decodes_rest, decodes_sample, decodes_segment, decodes_slice, decodes_slices, decodes_started,
    decodes_wide, heads, prepares, refers, substream_starts, unescapes, waves, Codec, Slice,
};
use crate::color::{bytes_view, Cicp};
use crate::config::{SliceHeader, Sps};
use crate::decode::{
    completes_image, completes_yuv, composes_image, converts_fully,
    decoded_image_follows_the_settings, decodes_image,
    decodes_image_grid, decodes_image_item, decodes_rgb8, decodes_yuv_grid, decodes_yuv_item,
    packed_rgb_has_three_bytes_per_pixel, parse_options, parses, shows_image,
    shows_yuv, tile_format, visible_buffer, wanted_alpha, wanted_gain_frame, wants, TileFormat,
};
use crate::error::DecodeError;
use crate::formats::{BitDepth, ChromaFormat, ImageBuffer, Pixels, PlanarImage, SamplePlane, YuvBuffer};
use crate::grid::{composes_native, decodes_native_grid, first_hvcc, native_geometry, undivided, with_part, Grid, NativeGridImage};
use crate::heif::{GridInfo, HeifFile, HeifItem, HeifParseOptions};
use crate::image::{DecodedImage, DecodedYuv, GainMapFrame, Rgb8Image};
use crate::limits::ParseLimits;
use crate::metadata::Orientation;
use crate::motion::RefEntry;
use crate::nal::{nal_at, nal_type};
use crate::rgb8::rgb8;
use crate::rgb_grid::{contents, converts, PixelGrid, PixelSample};
use crate::settings::HeicSettings;
use crate::tiles::Pps;
use crate::window::HevcVisibleCrop;
use crate::yuv::{NativeYuvPlanes, YuvPlanes};

verus! {

/// Two decodes that want no auxiliary images, within the same limits, give the same.
proof fn lemma_without_auxiliaries<C: Codec>(
    codec: &C,
    s: HeicSettings,
    aux_s: bool,
    t: HeicSettings,
    aux_t: bool,
    file: Seq<u8>,
    r: Result<DecodedImage, DecodeError>,
)
    requires
        s.limits == t.limits,
        !wants(aux_s, s.decode_alpha) && !wants(aux_s, s.decode_gain_map),
        !wants(aux_t, t.decode_alpha) && !wants(aux_t, t.decode_gain_map),
        decodes_image(codec, s, aux_s, file, r),
    ensures
        decodes_image(codec, t, aux_t, file, r),
{
    assert(parse_options(s, aux_s) == parse_options(t, aux_t));
    assert forall|heif: HeifFile, w: u32, h: u32, p: Pixels, depth: BitDepth, o: Orientation|
        #[trigger] completes_image(codec, s, aux_s, file, heif, w, h, p, depth, o, r)
            implies completes_image(codec, t, aux_t, file, heif, w, h, p, depth, o, r) by {}
    assert forall|heif: HeifFile, planes: YuvPlanes, vui: Cicp| #[trigger]
        shows_image(codec, s, aux_s, file, heif, planes, vui, r) implies shows_image(
        codec,
        t,
        aux_t,
        file,
        heif,
        planes,
        vui,
        r,
    ) by {}
    assert forall|heif: HeifFile| #[trigger]
        decodes_image_item(codec, s, aux_s, file, heif, r) implies decodes_image_item(
        codec,
        t,
        aux_t,
        file,
        heif,
        r,
    ) by {}
    assert forall|heif: HeifFile, grid: GridInfo, size: (int, int), f: TileFormat|
        #[trigger] composes_image(codec, s, aux_s, file, heif, grid, size, f, r)
            implies composes_image(codec, t, aux_t, file, heif, grid, size, f, r) by {}
    assert forall|heif: HeifFile, grid: GridInfo| #[trigger]
        decodes_image_grid(codec, s, aux_s, file, heif, grid, r) implies decodes_image_grid(
        codec,
        t,
        aux_t,
        file,
        heif,
        grid,
        r,
    ) by {}
}

/// Settings for the primary image only decode an image as if auxiliary images were never asked for.
pub proof fn primary_settings_leave_auxiliaries_out<C: Codec>(
    codec: &C,
    settings: HeicSettings,
    file: Seq<u8>,
    r: Result<DecodedImage, DecodeError>,
)
    ensures
        decodes_image(codec, settings.primary(), true, file, r) == decodes_image(
            codec,
            settings,
            false,
            file,
            r,
        ),
{
    if decodes_image(codec, settings.primary(), true, file, r) {
        lemma_without_auxiliaries(codec, settings.primary(), true, settings, false, file, r);
    }
    if decodes_image(codec, settings, false, file, r) {
        lemma_without_auxiliaries(codec, settings, false, settings.primary(), true, file, r);
    }
}

/// Packed RGB depends on the limits alone: the settings for auxiliary images do not matter to it.
pub proof fn packed_rgb_ignores_auxiliary_settings<C: Codec>(
    codec: &C,
    s: HeicSettings,
    t: HeicSettings,
    file: Seq<u8>,
    r: Result<Rgb8Image, DecodeError>,
)
    requires
        s.limits == t.limits,
    ensures
        decodes_rgb8(codec, s, file, r) == decodes_rgb8(codec, t, file, r),
{
    assert forall|i: Result<DecodedImage, DecodeError>| #[trigger]
        decodes_image(codec, s, false, file, i) implies decodes_image(
        codec,
        t,
        false,
        file,
        i,
    ) by {
        lemma_without_auxiliaries(codec, s, false, t, false, file, i);
    }
    assert forall|i: Result<DecodedImage, DecodeError>| #[trigger]
        decodes_image(codec, t, false, file, i) implies decodes_image(
        codec,
        s,
        false,
        file,
        i,
    ) by {
        lemma_without_auxiliaries(codec, t, false, s, false, file, i);
    }
}

/// A decode with another orientation noted in it.
pub open spec fn noted(r: Result<DecodedYuv, DecodeError>, o: Orientation) -> Result<
    DecodedYuv,
    DecodeError,
> {
    match r {
        Ok(out) => Ok(DecodedYuv { orientation: o, ..out }),
        Err(e) => Err(e),
    }
}

/// Decoded planes are in coded orientation: what the container says of the orientation of an item
/// is noted in the result, and changes nothing else.
pub proof fn item_planes_are_not_turned<C: Codec>(
    codec: &C,
    settings: HeicSettings,
    file: Seq<u8>,
    heif: HeifFile,
    o: Orientation,
    r: Result<DecodedYuv, DecodeError>,
)
    requires
        decodes_yuv_item(codec, settings, file, heif, r),
    ensures
        decodes_yuv_item(
            codec,
            settings,
            file,
            HeifFile { primary: HeifItem { orientation: o, ..heif.primary }, ..heif },
            noted(r, o),
        ),
{
    let turned = HeifFile { primary: HeifItem { orientation: o, ..heif.primary }, ..heif };
    let n = noted(r, o);
    assert forall|wanted: bool, dw: int, dh: int, a: Result<Option<SamplePlane>, DecodeError>|
        #[trigger] wanted_alpha(codec, wanted, file, heif, dw, dh, a) implies wanted_alpha(
        codec,
        wanted,
        file,
        turned,
        dw,
        dh,
        a,
    ) by {}
    assert forall|wanted: bool, g: Result<Option<GainMapFrame>, DecodeError>| #[trigger]
        wanted_gain_frame(codec, wanted, settings.limits, file, heif, g) implies wanted_gain_frame(
        codec,
        wanted,
        settings.limits,
        file,
        turned,
        g,
    ) by {}
    assert forall|planes: YuvBuffer, dw: int, dh: int, depth: BitDepth, chroma:
        ChromaFormat|
        #[trigger] completes_yuv(
            codec,
            settings,
            file,
            heif,
            planes,
            dw,
            dh,
            depth,
            chroma,
            heif.primary.orientation,
            r,
        ) implies completes_yuv(
        codec,
        settings,
        file,
        turned,
        planes,
        dw,
        dh,
        depth,
        chroma,
        o,
        n,
    ) by {}
    assert forall|planes: NativeYuvPlanes| #[trigger]
        shows_yuv(codec, settings, file, heif, planes, r) implies shows_yuv(
        codec,
        settings,
        file,
        turned,
        planes,
        n,
    ) by {
        let item = heif.primary;
        let (dw, dh) = (item.display_w as int, item.display_h as int);
        if settings.limits.complaint(item.display_w, item.display_h) is None {
            let (crop, v) = choose|crop: HevcVisibleCrop, v: Result<YuvBuffer, DecodeError>|
                {
                    &&& #[trigger] crops(codec, item.hvcc@, crop)
                    &&& #[trigger] visible_buffer(planes, dw, dh, crop, v)
                    &&& match v {
                        Err(e) => r == Err::<DecodedYuv, DecodeError>(e),
                        Ok(visible) => completes_yuv(
                            codec,
                            settings,
                            file,
                            heif,
                            visible,
                            dw,
                            dh,
                            planes.depth(),
                            planes.sampling(),
                            item.orientation,
                            r,
                        ),
                    }
                };
            assert(crops(codec, turned.primary.hvcc@, crop));
            assert(visible_buffer(planes, dw, dh, crop, v));
        }
    }
    let item = heif.primary;
    assert(turned.primary.data(file) == item.data(file));
    assert(turned.primary.hvcc == item.hvcc);
}

/// Decoded planes are in coded orientation: what the container says of the orientation of a grid is
/// noted in the result, and changes nothing else.
pub proof fn grid_planes_are_not_turned<C: Codec>(
    codec: &C,
    settings: HeicSettings,
    file: Seq<u8>,
    heif: HeifFile,
    grid: GridInfo,
    o: Orientation,
    r: Result<DecodedYuv, DecodeError>,
)
    requires
        decodes_yuv_grid(codec, settings, file, heif, grid, r),
    ensures
        decodes_yuv_grid(
            codec,
            settings,
            file,
            heif,
            GridInfo { orientation: o, ..grid },
            noted(r, o),
        ),
{
    let turned = GridInfo { orientation: o, ..grid };
    let n = noted(r, o);
    assert forall|g: Result<NativeGridImage, DecodeError>| #[trigger]
        decodes_native_grid(codec, settings.limits, file, grid, g) implies decodes_native_grid(
        codec,
        settings.limits,
        file,
        turned,
        g,
    ) by {
        assert forall|sps: Sps| #[trigger] composes_native(codec, file, grid, sps, g)
            implies composes_native(codec, file, turned, sps, g) by {
            let model = Grid {
                file,
                tiles: grid.tiles@,
                fallback: first_hvcc(grid.tiles@, 0),
                geo: native_geometry(grid, sps),
            };
            assert(native_geometry(turned, sps) == native_geometry(grid, sps));
            assert(turned.rows == grid.rows && turned.tiles@ == grid.tiles@);
            assert(model == Grid {
                file,
                tiles: turned.tiles@,
                fallback: first_hvcc(turned.tiles@, 0),
                geo: native_geometry(turned, sps),
            });
            if !undivided(grid, sps) {
                if BitDepth::signalled(sps.bit_depth_luma as int) is Eight {
                    assert(exists|p: Result<PlanarImage<u8>, DecodeError>| #[trigger]
                        model.composes(codec, grid.rows as int, p));
                } else {
                    assert(exists|p: Result<PlanarImage<u16>, DecodeError>| #[trigger]
                        model.composes(codec, grid.rows as int, p));
                }
            }
        }
    }
    assert forall|planes: YuvBuffer, dw: int, dh: int, depth: BitDepth, chroma:
        ChromaFormat|
        #[trigger] completes_yuv(
            codec,
            settings,
            file,
            heif,
            planes,
            dw,
            dh,
            depth,
            chroma,
            grid.orientation,
            r,
        ) implies completes_yuv(codec, settings, file, heif, planes, dw, dh, depth, chroma, o, n) by {}
}

/// The components answer alike whenever they are asked alike: the parsers for the same bytes, the
/// bitstream decoder for the same picture and data, the colour conversion for the same planes.
pub open spec fn steady<C: Codec>(codec: &C) -> bool {
    &&& forall|
        f1: &[u8],
        f2: &[u8],
        limits: ParseLimits,
        options: HeifParseOptions,
        r1: Result<HeifFile, DecodeError>,
        r2: Result<HeifFile, DecodeError>,
    |
        f1@ == f2@ && #[trigger] call_ensures(C::container, (codec, f1, &limits, options), r1)
            && #[trigger] call_ensures(C::container, (codec, f2, &limits, options), r2) ==> r1 == r2
    &&& forall|
        h1: &[u8],
        h2: &[u8],
        r1: Result<(Sps, Pps), DecodeError>,
        r2: Result<(Sps, Pps), DecodeError>,
    |
        h1@ == h2@ && #[trigger] call_ensures(C::param_sets, (codec, h1), r1)
            && #[trigger] call_ensures(C::param_sets, (codec, h2), r2) ==> r1 == r2
    &&& forall|n1: &[u8], n2: &[u8], v1: Vec<u8>, v2: Vec<u8>|
        n1@ == n2@ && #[trigger] call_ensures(C::unescape, (codec, n1), v1)
            && #[trigger] call_ensures(C::unescape, (codec, n2), v2) ==> v1@ == v2@
    &&& forall|
        b1: &[u8],
        b2: &[u8],
        sps: Sps,
        pps: Pps,
        kind: u8,
        r1: Result<SliceHeader, DecodeError>,
        r2: Result<SliceHeader, DecodeError>,
    |
        b1@ == b2@ && #[trigger] call_ensures(C::slice_header, (codec, b1, &sps, &pps, kind), r1)
            && #[trigger] call_ensures(C::slice_header, (codec, b2, &sps, &pps, kind), r2) ==> r1
            == r2
    &&& forall|
        n1: &[u8],
        n2: &[u8],
        hdr: SliceHeader,
        len: usize,
        v1: Vec<usize>,
        v2: Vec<usize>,
    |
        n1@ == n2@ && #[trigger] call_ensures(C::substreams, (codec, n1, &hdr, len), v1)
            && #[trigger] call_ensures(C::substreams, (codec, n2, &hdr, len), v2) ==> v1@ == v2@
    &&& steady_pictures(codec)
    &&& forall|
        planes: YuvPlanes,
        width: usize,
        height: usize,
        left: usize,
        top: usize,
        color: Cicp,
        parallel: bool,
        r1: Result<ImageBuffer, DecodeError>,
        r2: Result<ImageBuffer, DecodeError>,
    |
        #[trigger] converts(codec, planes, width, height, left, top, color, parallel, r1)
            && #[trigger] converts(codec, planes, width, height, left, top, color, parallel, r2)
            ==> r1 == r2
}

/// The bitstream decoder answers alike for the same picture and data.
pub open spec fn steady_pictures<C: Codec>(codec: &C) -> bool {
    &&& forall|
        hdr: SliceHeader,
        r1: Result<(Vec<RefEntry>, Vec<RefEntry>), DecodeError>,
        r2: Result<(Vec<RefEntry>, Vec<RefEntry>), DecodeError>,
    |
        #[trigger] call_ensures(C::reference_lists, (codec, current_picture(), &hdr), r1)
            && #[trigger] call_ensures(C::reference_lists, (codec, current_picture(), &hdr), r2)
            ==> r1 == r2
    &&& forall|
        b1: &[u8],
        b2: &[u8],
        sps: Sps,
        pps: Pps,
        hdr: SliceHeader,
        r1: Result<C::Picture, DecodeError>,
        r2: Result<C::Picture, DecodeError>,
    |
        b1@ == b2@ && #[trigger] call_ensures(C::start, (codec, b1, &sps, &pps, &hdr), r1)
            && #[trigger] call_ensures(C::start, (codec, b2, &sps, &pps, &hdr), r2) ==> r1 == r2
    &&& forall|
        p: C::Picture,
        l0: Vec<RefEntry>,
        l1: Vec<RefEntry>,
        r1: C::Picture,
        r2: C::Picture,
    |
        #[trigger] call_ensures(C::set_references, (codec, p, l0, l1), r1)
            && #[trigger] call_ensures(C::set_references, (codec, p, l0, l1), r2) ==> r1 == r2
    &&& forall|
        slice: Slice,
        p: C::Picture,
        r1: Result<(C::Picture, bool), DecodeError>,
        r2: Result<(C::Picture, bool), DecodeError>,
    |
        #[trigger] waves(codec, slice, p, r1) && #[trigger] waves(codec, slice, p, r2) ==> r1 == r2
    &&& forall|
        slice: Slice,
        starts: Seq<usize>,
        p: C::Picture,
        r1: Result<C::Picture, DecodeError>,
        r2: Result<C::Picture, DecodeError>,
    |
        #[trigger] decodes_slice(codec, slice, starts, p, r1) && #[trigger] decodes_slice(
            codec,
            slice,
            starts,
            p,
            r2,
        ) ==> r1 == r2
    &&& forall|
        p: C::Picture,
        b1: &[u8],
        b2: &[u8],
        hdr: SliceHeader,
        s1: &[usize],
        s2: &[usize],
        r1: Result<C::Picture, DecodeError>,
        r2: Result<C::Picture, DecodeError>,
    |
        b1@ == b2@ && s1@ == s2@ && #[trigger] call_ensures(
            C::segment,
            (codec, p, b1, &hdr, s1),
            r1,
        ) && #[trigger] call_ensures(C::segment, (codec, p, b2, &hdr, s2), r2) ==> r1 == r2
    &&& forall|
        p: C::Picture,
        parallel: bool,
        r1: Result<YuvPlanes, DecodeError>,
        r2: Result<YuvPlanes, DecodeError>,
    |
        #[trigger] call_ensures(C::finish_wide, (codec, p, parallel), r1)
            && #[trigger] call_ensures(C::finish_wide, (codec, p, parallel), r2) ==> r1 == r2
    &&& forall|
        p: C::Picture,
        parallel: bool,
        r1: Result<NativeYuvPlanes, DecodeError>,
        r2: Result<NativeYuvPlanes, DecodeError>,
    |
        #[trigger] call_ensures(C::finish_native, (codec, p, parallel), r1)
            && #[trigger] call_ensures(C::finish_native, (codec, p, parallel), r2) ==> r1 == r2
}

/// What the container record and the slices of a steady decoder come to.
pub(crate) proof fn lemma_steady_parts<C: Codec>(codec: &C)
    requires
        steady(codec),
    ensures
        forall|
            hvcc: Seq<u8>,
            r1: Result<(Sps, Pps), DecodeError>,
            r2: Result<(Sps, Pps), DecodeError>,
        |
            #[trigger] configures(codec, hvcc, r1) && #[trigger] configures(codec, hvcc, r2) ==> r1
                == r2,
        forall|nal: Seq<u8>, v1: Seq<u8>, v2: Seq<u8>|
            #[trigger] unescapes(codec, nal, v1) && #[trigger] unescapes(codec, nal, v2) ==> v1
                == v2,
        forall|
            rbsp: Seq<u8>,
            sps: Sps,
            pps: Pps,
            kind: u8,
            r1: Result<SliceHeader, DecodeError>,
            r2: Result<SliceHeader, DecodeError>,
        |
            #[trigger] heads(codec, rbsp, sps, pps, kind, r1) && #[trigger] heads(
                codec,
                rbsp,
                sps,
                pps,
                kind,
                r2,
            ) ==> r1 == r2,
        forall|slice: Slice, v1: Seq<usize>, v2: Seq<usize>|
            #[trigger] substream_starts(codec, slice, v1) && #[trigger] substream_starts(
                codec,
                slice,
                v2,
            ) ==> v1 == v2,
        forall|
            sps: Sps,
            pps: Pps,
            hdr: SliceHeader,
            p: C::Picture,
            r1: Result<C::Picture, DecodeError>,
            r2: Result<C::Picture, DecodeError>,
        |
            #[trigger] refers(codec, sps, pps, hdr, p, r1) && #[trigger] refers(
                codec,
                sps,
                pps,
                hdr,
                p,
                r2,
            ) ==> r1 == r2,
{
}

proof fn lemma_steady_collects<C: Codec>(
    codec: &C,
    sample: Seq<u8>,
    size: int,
    sps: Sps,
    pps: Pps,
    pos: int,
    out: Seq<Slice>,
    r1: Result<Seq<Slice>, DecodeError>,
    r2: Result<Seq<Slice>, DecodeError>,
)
    requires
        steady(codec),
        collects(codec, sample, size, sps, pps, pos, out, r1),
        collects(codec, sample, size, sps, pps, pos, out, r2),
    ensures
        r1 == r2,
    decreases sample.len() - pos,
{
    lemma_steady_parts(codec);
    if pos < sample.len() && nal_at(sample, pos, size) is Ok {
        let (s, e) = nal_at(sample, pos, size)->Ok_0;
        let kind = nal_type(sample[s]);
        let source = sample.subrange(s, e);
        if kind > 31 {
            lemma_steady_collects(codec, sample, size, sps, pps, e, out, r1, r2);
        } else {
            let (b1, h1) = choose|b: Seq<u8>, h: Result<SliceHeader, DecodeError>|
                {
                    &&& #[trigger] unescapes(codec, source, b)
                    &&& #[trigger] heads(codec, b, sps, pps, kind, h)
                    &&& match h {
                        Err(x) => r1 == Err::<Seq<Slice>, DecodeError>(x),
                        Ok(hdr) => collects(
                            codec,
                            sample,
                            size,
                            sps,
                            pps,
                            e,
                            out.push(Slice { source, rbsp: b, hdr }),
                            r1,
                        ),
                    }
                };
            let (b2, h2) = choose|b: Seq<u8>, h: Result<SliceHeader, DecodeError>|
                {
                    &&& #[trigger] unescapes(codec, source, b)
                    &&& #[trigger] heads(codec, b, sps, pps, kind, h)
                    &&& match h {
                        Err(x) => r2 == Err::<Seq<Slice>, DecodeError>(x),
                        Ok(hdr) => collects(
                            codec,
                            sample,
                            size,
                            sps,
                            pps,
                            e,
                            out.push(Slice { source, rbsp: b, hdr }),
                            r2,
                        ),
                    }
                };
            if let Ok(hdr) = h1 {
                let next = out.push(Slice { source, rbsp: b1, hdr });
                lemma_steady_collects(codec, sample, size, sps, pps, e, next, r1, r2);
            }
        }
    }
}

proof fn lemma_steady_segments<C: Codec>(codec: &C)
    requires
        steady(codec),
    ensures
        forall|
            slice: Slice,
            p: C::Picture,
            r1: Result<C::Picture, DecodeError>,
            r2: Result<C::Picture, DecodeError>,
        |
            #[trigger] decodes_segment(codec, slice, p, r1) && #[trigger] decodes_segment(
                codec,
                slice,
                p,
                r2,
            ) ==> r1 == r2,
        forall|
            slices: Seq<Slice>,
            parallel: bool,
            p: C::Picture,
            r1: Result<C::Picture, DecodeError>,
            r2: Result<C::Picture, DecodeError>,
        |
            #[trigger] decodes_first(codec, slices, parallel, p, r1) && #[trigger] decodes_first(
                codec,
                slices,
                parallel,
                p,
                r2,
            ) ==> r1 == r2,
        forall|
            sps: Sps,
            pps: Pps,
            slice: Slice,
            p: C::Picture,
            r1: Result<C::Picture, DecodeError>,
            r2: Result<C::Picture, DecodeError>,
        |
            #[trigger] prepares(codec, sps, pps, slice, p, r1) && #[trigger] prepares(
                codec,
                sps,
                pps,
                slice,
                p,
                r2,
            ) ==> r1 == r2,
{
    lemma_steady_parts(codec);
}

proof fn lemma_steady_rest<C: Codec>(
    codec: &C,
    sps: Sps,
    pps: Pps,
    slices: Seq<Slice>,
    i: int,
    picture: C::Picture,
    r1: Result<C::Picture, DecodeError>,
    r2: Result<C::Picture, DecodeError>,
)
    requires
        steady(codec),
        decodes_rest(codec, sps, pps, slices, i, picture, r1),
        decodes_rest(codec, sps, pps, slices, i, picture, r2),
    ensures
        r1 == r2,
    decreases slices.len() - i,
{
    lemma_steady_segments(codec);
    if i < slices.len() && !slices[i].hdr.first_slice_in_pic {
        let q1 = choose|q: Result<C::Picture, DecodeError>|
            {
                &&& #[trigger] prepares(codec, sps, pps, slices[i], picture, q)
                &&& match q {
                    Err(e) => r1 == Err::<C::Picture, DecodeError>(e),
                    Ok(p) => exists|u: Result<C::Picture, DecodeError>|
                        {
                            &&& #[trigger] decodes_segment(codec, slices[i], p, u)
                            &&& match u {
                                Err(e) => r1 == Err::<C::Picture, DecodeError>(e),
                                Ok(p2) => decodes_rest(codec, sps, pps, slices, i + 1, p2, r1),
                            }
                        },
                }
            };
        let q2 = choose|q: Result<C::Picture, DecodeError>|
            {
                &&& #[trigger] prepares(codec, sps, pps, slices[i], picture, q)
                &&& match q {
                    Err(e) => r2 == Err::<C::Picture, DecodeError>(e),
                    Ok(p) => exists|u: Result<C::Picture, DecodeError>|
                        {
                            &&& #[trigger] decodes_segment(codec, slices[i], p, u)
                            &&& match u {
                                Err(e) => r2 == Err::<C::Picture, DecodeError>(e),
                                Ok(p2) => decodes_rest(codec, sps, pps, slices, i + 1, p2, r2),
                            }
                        },
                }
            };
        if let Ok(p) = q1 {
            let u1 = choose|u: Result<C::Picture, DecodeError>|
                {
                    &&& #[trigger] decodes_segment(codec, slices[i], p, u)
                    &&& match u {
                        Err(e) => r1 == Err::<C::Picture, DecodeError>(e),
                        Ok(p2) => decodes_rest(codec, sps, pps, slices, i + 1, p2, r1),
                    }
                };
            let u2 = choose|u: Result<C::Picture, DecodeError>|
                {
                    &&& #[trigger] decodes_segment(codec, slices[i], p, u)
                    &&& match u {
                        Err(e) => r2 == Err::<C::Picture, DecodeError>(e),
                        Ok(p2) => decodes_rest(codec, sps, pps, slices, i + 1, p2, r2),
                    }
                };
            if let Ok(p2) = u1 {
                lemma_steady_rest(codec, sps, pps, slices, i + 1, p2, r1, r2);
            }
        }
    }
}

proof fn lemma_steady_picture<C: Codec>(
    codec: &C,
    sps: Sps,
    pps: Pps,
    slices: Seq<Slice>,
    parallel: bool,
    r1: Result<C::Picture, DecodeError>,
    r2: Result<C::Picture, DecodeError>,
)
    requires
        steady(codec),
        decodes_picture(codec, sps, pps, slices, parallel, r1),
        decodes_picture(codec, sps, pps, slices, parallel, r2),
    ensures
        r1 == r2,
{
    assert forall|p: C::Picture| #[trigger]
        decodes_started(codec, sps, pps, slices, parallel, p, r1) && decodes_started(
        codec,
        sps,
        pps,
        slices,
        parallel,
        p,
        r2,
    ) implies r1 == r2 by {
        lemma_steady_parts(codec);
        lemma_steady_segments(codec);
        assert forall|q: C::Picture| #[trigger]
            decodes_rest(codec, sps, pps, slices, 1, q, r1) && decodes_rest(
            codec,
            sps,
            pps,
            slices,
            1,
            q,
            r2,
        ) implies r1 == r2 by {
            lemma_steady_rest(codec, sps, pps, slices, 1, q, r1, r2);
        }
    }
}

proof fn lemma_steady_item<C: Codec>(
    codec: &C,
    sample: Seq<u8>,
    hvcc: Seq<u8>,
    parallel: bool,
)
    requires
        steady(codec),
    ensures
        forall|
            d1: Result<(C::Picture, Cicp), DecodeError>,
            d2: Result<(C::Picture, Cicp), DecodeError>,
        |
            #[trigger] decodes_item(codec, sample, hvcc, parallel, d1) && #[trigger] decodes_item(
                codec,
                sample,
                hvcc,
                parallel,
                d2,
            ) ==> d1 == d2,
{
    assert forall|
        d1: Result<(C::Picture, Cicp), DecodeError>,
        d2: Result<(C::Picture, Cicp), DecodeError>,
    |
        #[trigger] decodes_item(codec, sample, hvcc, parallel, d1) && #[trigger] decodes_item(
            codec,
            sample,
            hvcc,
            parallel,
            d2,
        ) implies d1 == d2 by {
        lemma_steady_parts(codec);
        assert forall|size: int, sps: Sps, pps: Pps| #[trigger]
            decodes_sample(codec, sample, size, sps, pps, parallel, d1) && decodes_sample(
            codec,
            sample,
            size,
            sps,
            pps,
            parallel,
            d2,
        ) implies d1 == d2 by {
            assert forall|
                s1: Result<Seq<Slice>, DecodeError>,
                s2: Result<Seq<Slice>, DecodeError>,
            |
                #[trigger] collects(codec, sample, size, sps, pps, 0, Seq::empty(), s1)
                    && #[trigger] collects(codec, sample, size, sps, pps, 0, Seq::empty(), s2)
                implies s1 == s2 by {
                lemma_steady_collects(codec, sample, size, sps, pps, 0, Seq::empty(), s1, s2);
            }
            assert forall|slices: Seq<Slice>| #[trigger]
                decodes_slices(codec, sps, pps, slices, parallel, d1) && decodes_slices(
                codec,
                sps,
                pps,
                slices,
                parallel,
                d2,
            ) implies d1 == d2 by {
                assert forall|
                    p1: Result<C::Picture, DecodeError>,
                    p2: Result<C::Picture, DecodeError>,
                |
                    #[trigger] decodes_picture(codec, sps, pps, slices, parallel, p1)
                        && #[trigger] decodes_picture(codec, sps, pps, slices, parallel, p2)
                    implies p1 == p2 by {
                    lemma_steady_picture(codec, sps, pps, slices, parallel, p1, p2);
                }
            }
        }
    }
}

/// A steady decoder has one result for an item in 16-bit samples.
pub proof fn items_decode_alike<C: Codec>(
    codec: &C,
    sample: Seq<u8>,
    hvcc: Seq<u8>,
    parallel: bool,
    r1: Result<(YuvPlanes, Cicp), DecodeError>,
    r2: Result<(YuvPlanes, Cicp), DecodeError>,
)
    requires
        steady(codec),
        decodes_wide(codec, sample, hvcc, parallel, r1),
        decodes_wide(codec, sample, hvcc, parallel, r2),
    ensures
        r1 == r2,
{
    lemma_steady_item(codec, sample, hvcc, parallel);
}

/// A steady decoder has one result for an item in the narrowest samples.
pub proof fn native_items_decode_alike<C: Codec>(
    codec: &C,
    sample: Seq<u8>,
    hvcc: Seq<u8>,
    parallel: bool,
    r1: Result<(NativeYuvPlanes, Cicp), DecodeError>,
    r2: Result<(NativeYuvPlanes, Cicp), DecodeError>,
)
    requires
        steady(codec),
        decodes_native(codec, sample, hvcc, parallel, r1),
        decodes_native(codec, sample, hvcc, parallel, r2),
    ensures
        r1 == r2,
{
    lemma_steady_item(codec, sample, hvcc, parallel);
}

proof fn lemma_steady_stitches<C: Codec, T: PixelSample>(
    grid: PixelGrid,
    codec: &C,
    k: int,
    col: int,
    band: Seq<T>,
    r1: Result<Seq<T>, DecodeError>,
    r2: Result<Seq<T>, DecodeError>,
)
    requires
        steady(codec),
        grid.stitches(codec, k, col, band, r1),
        grid.stitches(codec, k, col, band, r2),
    ensures
        r1 == r2,
    decreases grid.geo.cols - col,
{
    let idx = k * grid.geo.cols + col;
    let shown = grid.geo.shows(k, col);
    if col < grid.geo.cols && idx < grid.tiles.len() {
        let d1 = choose|d: Result<Option<ImageBuffer>, DecodeError>|
            {
                &&& #[trigger] grid.converts_tile(codec, idx, shown, d)
                &&& match d {
                    Err(e) => r1 == Err::<Seq<T>, DecodeError>(e),
                    Ok(p) => match grid.with_tile(k, col, p, band) {
                        Err(e) => r1 == Err::<Seq<T>, DecodeError>(e),
                        Ok(next) => grid.stitches(codec, k, col + 1, next, r1),
                    },
                }
            };
        let d2 = choose|d: Result<Option<ImageBuffer>, DecodeError>|
            {
                &&& #[trigger] grid.converts_tile(codec, idx, shown, d)
                &&& match d {
                    Err(e) => r2 == Err::<Seq<T>, DecodeError>(e),
                    Ok(p) => match grid.with_tile(k, col, p, band) {
                        Err(e) => r2 == Err::<Seq<T>, DecodeError>(e),
                        Ok(next) => grid.stitches(codec, k, col + 1, next, r2),
                    },
                }
            };
        lemma_steady_tile(grid, codec, idx, shown, d1, d2);
        if let Ok(p) = d1 {
            if let Ok(next) = grid.with_tile(k, col, p, band) {
                lemma_steady_stitches(grid, codec, k, col + 1, next, r1, r2);
            }
        }
    }
}

proof fn lemma_steady_tile<C: Codec>(
    grid: PixelGrid,
    codec: &C,
    idx: int,
    shown: bool,
    r1: Result<Option<ImageBuffer>, DecodeError>,
    r2: Result<Option<ImageBuffer>, DecodeError>,
)
    requires
        steady(codec),
        grid.converts_tile(codec, idx, shown, r1),
        grid.converts_tile(codec, idx, shown, r2),
    ensures
        r1 == r2,
{
    assert forall|
        sample: Seq<u8>,
        hvcc: Seq<u8>,
        d1: Result<(YuvPlanes, Cicp), DecodeError>,
        d2: Result<(YuvPlanes, Cicp), DecodeError>,
    |
        #[trigger] decodes_wide(codec, sample, hvcc, false, d1) && #[trigger] decodes_wide(
            codec,
            sample,
            hvcc,
            false,
            d2,
        ) implies d1 == d2 by {
        items_decode_alike(codec, sample, hvcc, false, d1, d2);
    }
}

proof fn lemma_steady_fills<C: Codec, T: PixelSample>(
    grid: PixelGrid,
    codec: &C,
    rows: int,
    k: int,
    out: Seq<T>,
    r1: Result<Seq<T>, DecodeError>,
    r2: Result<Seq<T>, DecodeError>,
)
    requires
        steady(codec),
        grid.fills(codec, rows, k, out, r1),
        grid.fills(codec, rows, k, out, r2),
    ensures
        r1 == r2,
    decreases rows - k,
{
    let pitch = grid.geo.pitch();
    let lo = k * grid.geo.tile_h * pitch;
    let n = grid.geo.height_at(k) * pitch;
    if k < rows {
        if n <= 0 {
            lemma_steady_fills(grid, codec, rows, k + 1, out, r1, r2);
        } else {
            let band = out.subrange(lo, lo + n);
            let b1 = choose|b: Result<Seq<T>, DecodeError>|
                {
                    &&& #[trigger] grid.stitches(codec, k, 0, band, b)
                    &&& match b {
                        Err(e) => r1 == Err::<Seq<T>, DecodeError>(e),
                        Ok(part) => grid.fills(codec, rows, k + 1, with_part(out, lo, part), r1),
                    }
                };
            let b2 = choose|b: Result<Seq<T>, DecodeError>|
                {
                    &&& #[trigger] grid.stitches(codec, k, 0, band, b)
                    &&& match b {
                        Err(e) => r2 == Err::<Seq<T>, DecodeError>(e),
                        Ok(part) => grid.fills(codec, rows, k + 1, with_part(out, lo, part), r2),
                    }
                };
            lemma_steady_stitches(grid, codec, k, 0, band, b1, b2);
            if let Ok(part) = b1 {
                lemma_steady_fills(grid, codec, rows, k + 1, with_part(out, lo, part), r1, r2);
            }
        }
    }
}

/// Two images are the same but for their alpha planes and gain maps.
pub open spec fn same_primary(a: DecodedImage, b: DecodedImage) -> bool {
    &&& a.width == b.width
    &&& a.height == b.height
    &&& a.pixels@ == b.pixels@
    &&& a.bit_depth == b.bit_depth
    &&& a.color@ == b.color@
    &&& a.orientation == b.orientation
    &&& a.content_light_level == b.content_light_level
    &&& a.clean_aperture == b.clean_aperture
    &&& a.pixel_aspect_ratio == b.pixel_aspect_ratio
    &&& bytes_view(a.exif) == bytes_view(b.exif)
}

/// Two containers are the same but for their alpha images and gain maps.
pub open spec fn same_but_auxiliaries(a: HeifFile, b: HeifFile) -> bool {
    a.primary == b.primary && a.grid == b.grid && a.exif == b.exif
}

proof fn lemma_completed_alike<C: Codec>(
    codec: &C,
    s: HeicSettings,
    aux_s: bool,
    t: HeicSettings,
    aux_t: bool,
    file: Seq<u8>,
    h1: HeifFile,
    h2: HeifFile,
    a: DecodedImage,
    b: DecodedImage,
)
    requires
        same_but_auxiliaries(h1, h2),
    ensures
        forall|w: u32, h: u32, p: Pixels, depth: BitDepth, o: Orientation|
            #[trigger] completes_image(codec, s, aux_s, file, h1, w, h, p, depth, o, Ok(a))
                && completes_image(codec, t, aux_t, file, h2, w, h, p, depth, o, Ok(b))
                ==> same_primary(a, b),
{
}

proof fn lemma_items_alike<C: Codec>(
    codec: &C,
    s: HeicSettings,
    aux_s: bool,
    t: HeicSettings,
    aux_t: bool,
    file: Seq<u8>,
    h1: HeifFile,
    h2: HeifFile,
    a: DecodedImage,
    b: DecodedImage,
)
    requires
        steady(codec),
        s.limits == t.limits,
        same_but_auxiliaries(h1, h2),
        decodes_image_item(codec, s, aux_s, file, h1, Ok(a)),
        decodes_image_item(codec, t, aux_t, file, h2, Ok(b)),
    ensures
        same_primary(a, b),
{
    let item = h1.primary;
    lemma_completed_alike(codec, s, aux_s, t, aux_t, file, h1, h2, a, b);
    assert forall|
        d1: Result<(YuvPlanes, Cicp), DecodeError>,
        d2: Result<(YuvPlanes, Cicp), DecodeError>,
    |
        #[trigger] decodes_wide(codec, item.data(file), item.hvcc@, true, d1)
            && #[trigger] decodes_wide(codec, item.data(file), item.hvcc@, true, d2) implies d1
        == d2 by {
        items_decode_alike(codec, item.data(file), item.hvcc@, true, d1, d2);
    }
    assert forall|c1: HevcVisibleCrop, c2: HevcVisibleCrop|
        #[trigger] crops(codec, item.hvcc@, c1) && #[trigger] crops(codec, item.hvcc@, c2)
        implies c1 == c2 by {
        lemma_steady_parts(codec);
    }
    assert forall|planes: YuvPlanes, vui: Cicp|
        #[trigger] shows_image(codec, s, aux_s, file, h1, planes, vui, Ok(a)) && shows_image(
            codec,
            t,
            aux_t,
            file,
            h2,
            planes,
            vui,
            Ok(b),
        ) implies same_primary(a, b) by {}
}

proof fn lemma_grids_alike<C: Codec>(
    codec: &C,
    s: HeicSettings,
    aux_s: bool,
    t: HeicSettings,
    aux_t: bool,
    file: Seq<u8>,
    h1: HeifFile,
    h2: HeifFile,
    grid: GridInfo,
    a: DecodedImage,
    b: DecodedImage,
)
    requires
        steady(codec),
        s.limits == t.limits,
        same_but_auxiliaries(h1, h2),
        decodes_image_grid(codec, s, aux_s, file, h1, grid, Ok(a)),
        decodes_image_grid(codec, t, aux_t, file, h2, grid, Ok(b)),
    ensures
        same_primary(a, b),
{
    let rows = grid.rows as int;
    lemma_completed_alike(codec, s, aux_s, t, aux_t, file, h1, h2, a, b);
    lemma_steady_parts(codec);
    assert forall|model: PixelGrid, v1: Result<Vec<u8>, DecodeError>, v2: Result<Vec<u8>, DecodeError>|
        #[trigger] model.composes(codec, rows, v1) && #[trigger] model.composes(codec, rows, v2)
            && v1 is Ok && v2 is Ok implies v1->Ok_0@ == v2->Ok_0@ by {
        lemma_steady_fills(
            model,
            codec,
            rows,
            0,
            model.geo.blank::<u8>(),
            Ok(v1->Ok_0@),
            Ok(v2->Ok_0@),
        );
    }
    assert forall|
        model: PixelGrid,
        v1: Result<Vec<u16>, DecodeError>,
        v2: Result<Vec<u16>, DecodeError>,
    |
        #[trigger] model.composes(codec, rows, v1) && #[trigger] model.composes(codec, rows, v2)
            && v1 is Ok && v2 is Ok implies v1->Ok_0@ == v2->Ok_0@ by {
        lemma_steady_fills(
            model,
            codec,
            rows,
            0,
            model.geo.blank::<u16>(),
            Ok(v1->Ok_0@),
            Ok(v2->Ok_0@),
        );
    }
    assert forall|size: (int, int), f: TileFormat|
        #[trigger] composes_image(codec, s, aux_s, file, h1, grid, size, f, Ok(a))
            && composes_image(codec, t, aux_t, file, h2, grid, size, f, Ok(b))
        implies same_primary(a, b) by {}
    assert forall|ps: Result<(Sps, Pps), DecodeError>| #[trigger] tile_format(h1, ps) == tile_format(
        h2,
        ps,
    ) by {}
}

/// Two images of containers that are the same but for auxiliary images.
proof fn lemma_images_alike<C: Codec>(
    codec: &C,
    s: HeicSettings,
    aux_s: bool,
    t: HeicSettings,
    aux_t: bool,
    file: Seq<u8>,
    a: DecodedImage,
    b: DecodedImage,
)
    requires
        steady(codec),
        s.limits == t.limits,
        parse_options(s, aux_s) == parse_options(t, aux_t) || options_concern_auxiliaries(codec),
        decodes_image(codec, s, aux_s, file, Ok(a)),
        decodes_image(codec, t, aux_t, file, Ok(b)),
    ensures
        same_primary(a, b),
{
    let o1 = parse_options(s, aux_s);
    let o2 = parse_options(t, aux_t);
    let c1 = choose|c: Result<HeifFile, DecodeError>|
        {
            &&& #[trigger] parses(codec, file, s.limits, o1, c)
            &&& match c {
                Err(e) => false,
                Ok(heif) => match heif.grid {
                    Some(grid) => decodes_image_grid(codec, s, aux_s, file, heif, grid, Ok(a)),
                    None => decodes_image_item(codec, s, aux_s, file, heif, Ok(a)),
                },
            }
        };
    let c2 = choose|c: Result<HeifFile, DecodeError>|
        {
            &&& #[trigger] parses(codec, file, t.limits, o2, c)
            &&& match c {
                Err(e) => false,
                Ok(heif) => match heif.grid {
                    Some(grid) => decodes_image_grid(codec, t, aux_t, file, heif, grid, Ok(b)),
                    None => decodes_image_item(codec, t, aux_t, file, heif, Ok(b)),
                },
            }
        };
    let (h1, h2) = (c1->Ok_0, c2->Ok_0);
    if !options_concern_auxiliaries(codec) {
        assert(c1 == c2);
    }
    assert(same_but_auxiliaries(h1, h2));
    match h1.grid {
        Some(grid) => {
            lemma_grids_alike(codec, s, aux_s, t, aux_t, file, h1, h2, grid, a, b);
        },
        None => {
            lemma_items_alike(codec, s, aux_s, t, aux_t, file, h1, h2, a, b);
        },
    }
}

/// The options of the container parser concern the auxiliary images alone: whatever they are, it
/// finds the same primary image.
pub open spec fn options_concern_auxiliaries<C: Codec>(codec: &C) -> bool {
    forall|
        file: Seq<u8>,
        limits: ParseLimits,
        o1: HeifParseOptions,
        o2: HeifParseOptions,
        h1: HeifFile,
        h2: HeifFile,
    |
        #[trigger] parses(codec, file, limits, o1, Ok(h1)) && #[trigger] parses(
            codec,
            file,
            limits,
            o2,
            Ok(h2),
        ) ==> same_but_auxiliaries(h1, h2)
}

/// With a steady decoder, packed RGB is the image that is decoded without auxiliary images, packed:
/// the upper eight bits of its samples, three bytes per pixel.
pub proof fn packed_rgb_is_the_packed_primary_image<C: Codec>(
    codec: &C,
    settings: HeicSettings,
    file: Seq<u8>,
    image: DecodedImage,
    out: Rgb8Image,
)
    requires
        steady(codec),
        decodes_image(codec, settings.primary(), true, file, Ok(image)),
        decodes_rgb8(codec, settings, file, Ok(out)),
    ensures
        out.width == image.width,
        out.height == image.height,
        out.pixels@ == rgb8(image.pixels@, image.bit_depth.count() - 8),
        converts_fully(codec) ==> out.pixels@.len() == 3 * (out.width * out.height),
{
    assert forall|i: DecodedImage| #[trigger]
        decodes_image(codec, settings, false, file, Ok(i)) implies same_primary(i, image) by {
        lemma_images_alike(codec, settings, false, settings.primary(), true, file, i, image);
    }
    if converts_fully(codec) {
        packed_rgb_has_three_bytes_per_pixel(codec, settings, file, out);
    }
}

/// With a steady decoder whose container parser finds the same primary image whatever its options
/// are, settings for the primary image only change nothing but the alpha plane and the gain map,
/// which are then absent.
pub proof fn primary_settings_change_auxiliaries_only<C: Codec>(
    codec: &C,
    settings: HeicSettings,
    file: Seq<u8>,
    full: DecodedImage,
    primary: DecodedImage,
)
    requires
        steady(codec),
        options_concern_auxiliaries(codec),
        decodes_image(codec, settings, true, file, Ok(full)),
        decodes_image(codec, settings.primary(), true, file, Ok(primary)),
    ensures
        same_primary(full, primary),
        primary.alpha is None,
        primary.gain_map is None,
        !settings.decode_alpha ==> full.alpha is None,
        !settings.decode_gain_map ==> full.gain_map is None,
{
    lemma_images_alike(codec, settings, true, settings.primary(), true, file, full, primary);
    decoded_image_follows_the_settings(codec, settings.primary(), true, file, primary);
    decoded_image_follows_the_settings(codec, settings, true, file, full);
}

/// With such a decoder, packed RGB is the decoded image, packed: the upper eight bits of its
/// samples, grey ones three times, three bytes per pixel.
pub proof fn packed_rgb_is_the_packed_image<C: Codec>(
    codec: &C,
    settings: HeicSettings,
    file: Seq<u8>,
    image: DecodedImage,
    out: Rgb8Image,
)
    requires
        steady(codec),
        options_concern_auxiliaries(codec),
        decodes_image(codec, settings, true, file, Ok(image)),
        decodes_rgb8(codec, settings, file, Ok(out)),
    ensures
        out.width == image.width,
        out.height == image.height,
        out.pixels@ == rgb8(image.pixels@, image.bit_depth.count() - 8),
        converts_fully(codec) ==> out.pixels@.len() == 3 * (out.width * out.height),
{
    assert forall|i: DecodedImage| #[trigger]
        decodes_image(codec, settings, false, file, Ok(i)) implies same_primary(i, image) by {
        lemma_images_alike(codec, settings, false, settings, true, file, i, image);
    }
    if converts_fully(codec) {
        packed_rgb_has_three_bytes_per_pixel(codec, settings, file, out);
    }
}

/// There was no memory for something.
pub open spec fn out_of_memory<T>(r: Result<T, DecodeError>) -> bool {
    r matches Err(e) && e is AllocationFailed
}

/// Two decodes come to the same, but for their alpha planes and gain maps, unless one of them ran
/// out of memory.
pub open spec fn images_agree(
    a: Result<DecodedImage, DecodeError>,
    b: Result<DecodedImage, DecodeError>,
) -> bool {
    out_of_memory(a) || out_of_memory(b) || match (a, b) {
        (Ok(x), Ok(y)) => same_primary(x, y),
        (Err(e), Err(f)) => e == f,
        _ => false,
    }
}

/// Two packed images come to the same, unless one of them ran out of memory.
pub open spec fn packed_agree(
    a: Result<Rgb8Image, DecodeError>,
    b: Result<Rgb8Image, DecodeError>,
) -> bool {
    out_of_memory(a) || out_of_memory(b) || match (a, b) {
        (Ok(x), Ok(y)) => x.width == y.width && x.height == y.height && x.pixels@ == y.pixels@,
        (Err(e), Err(f)) => e == f,
        _ => false,
    }
}

proof fn lemma_completed_agree<C: Codec>(
    codec: &C,
    s: HeicSettings,
    t: HeicSettings,
    file: Seq<u8>,
    heif: HeifFile,
    a: Result<DecodedImage, DecodeError>,
    b: Result<DecodedImage, DecodeError>,
)
    ensures
        forall|w: u32, h: u32, p: Pixels, depth: BitDepth, o: Orientation|
            #[trigger] completes_image(codec, s, false, file, heif, w, h, p, depth, o, a)
                && completes_image(codec, t, false, file, heif, w, h, p, depth, o, b)
                ==> images_agree(a, b),
{
}

proof fn lemma_items_agree<C: Codec>(
    codec: &C,
    s: HeicSettings,
    t: HeicSettings,
    file: Seq<u8>,
    heif: HeifFile,
    a: Result<DecodedImage, DecodeError>,
    b: Result<DecodedImage, DecodeError>,
)
    requires
        steady(codec),
        s.limits == t.limits,
        decodes_image_item(codec, s, false, file, heif, a),
        decodes_image_item(codec, t, false, file, heif, b),
    ensures
        images_agree(a, b),
{
    let item = heif.primary;
    lemma_completed_agree(codec, s, t, file, heif, a, b);
    assert forall|
        d1: Result<(YuvPlanes, Cicp), DecodeError>,
        d2: Result<(YuvPlanes, Cicp), DecodeError>,
    |
        #[trigger] decodes_wide(codec, item.data(file), item.hvcc@, true, d1)
            && #[trigger] decodes_wide(codec, item.data(file), item.hvcc@, true, d2) implies d1
        == d2 by {
        items_decode_alike(codec, item.data(file), item.hvcc@, true, d1, d2);
    }
    assert forall|c1: HevcVisibleCrop, c2: HevcVisibleCrop|
        #[trigger] crops(codec, item.hvcc@, c1) && #[trigger] crops(codec, item.hvcc@, c2)
        implies c1 == c2 by {
        lemma_steady_parts(codec);
    }
    assert forall|planes: YuvPlanes, vui: Cicp|
        #[trigger] shows_image(codec, s, false, file, heif, planes, vui, a) && shows_image(
            codec,
            t,
            false,
            file,
            heif,
            planes,
            vui,
            b,
        ) implies images_agree(a, b) by {}
}

/// Filled grids are the same, unless there was no memory for one of them.
proof fn lemma_steady_composes<C: Codec, T: PixelSample>(
    model: PixelGrid,
    codec: &C,
    rows: int,
    v1: Result<Vec<T>, DecodeError>,
    v2: Result<Vec<T>, DecodeError>,
)
    requires
        steady(codec),
        model.composes(codec, rows, v1),
        model.composes(codec, rows, v2),
    ensures
        out_of_memory(v1) || out_of_memory(v2) || contents(v1) == contents(v2),
{
    if !out_of_memory(v1) && !out_of_memory(v2) {
        lemma_steady_fills(
            model,
            codec,
            rows,
            0,
            model.geo.blank::<T>(),
            contents(v1),
            contents(v2),
        );
    }
}

proof fn lemma_grids_agree<C: Codec>(
    codec: &C,
    s: HeicSettings,
    t: HeicSettings,
    file: Seq<u8>,
    heif: HeifFile,
    grid: GridInfo,
    a: Result<DecodedImage, DecodeError>,
    b: Result<DecodedImage, DecodeError>,
)
    requires
        steady(codec),
        s.limits == t.limits,
        decodes_image_grid(codec, s, false, file, heif, grid, a),
        decodes_image_grid(codec, t, false, file, heif, grid, b),
    ensures
        images_agree(a, b),
{
    let rows = grid.rows as int;
    lemma_completed_agree(codec, s, t, file, heif, a, b);
    lemma_steady_parts(codec);
    assert forall|model: PixelGrid, v1: Result<Vec<u8>, DecodeError>, v2: Result<Vec<u8>, DecodeError>|
        #[trigger] model.composes(codec, rows, v1) && #[trigger] model.composes(codec, rows, v2)
        implies out_of_memory(v1) || out_of_memory(v2) || contents(v1) == contents(v2) by {
        lemma_steady_composes(model, codec, rows, v1, v2);
    }
    assert forall|
        model: PixelGrid,
        v1: Result<Vec<u16>, DecodeError>,
        v2: Result<Vec<u16>, DecodeError>,
    |
        #[trigger] model.composes(codec, rows, v1) && #[trigger] model.composes(codec, rows, v2)
        implies out_of_memory(v1) || out_of_memory(v2) || contents(v1) == contents(v2) by {
        lemma_steady_composes(model, codec, rows, v1, v2);
    }
    assert forall|size: (int, int), f: TileFormat|
        #[trigger] composes_image(codec, s, false, file, heif, grid, size, f, a)
            && composes_image(codec, t, false, file, heif, grid, size, f, b)
        implies images_agree(a, b) by {}
}

/// With a steady decoder, two decodes without auxiliary images and within the same limits come to
/// the same, result or error, unless memory runs out.
pub proof fn primary_images_agree<C: Codec>(
    codec: &C,
    s: HeicSettings,
    t: HeicSettings,
    file: Seq<u8>,
    a: Result<DecodedImage, DecodeError>,
    b: Result<DecodedImage, DecodeError>,
)
    requires
        steady(codec),
        s.limits == t.limits,
        decodes_image(codec, s, false, file, a),
        decodes_image(codec, t, false, file, b),
    ensures
        images_agree(a, b),
{
    let o = parse_options(s, false);
    assert(o == parse_options(t, false));
    assert forall|c1: Result<HeifFile, DecodeError>, c2: Result<HeifFile, DecodeError>|
        #[trigger] parses(codec, file, s.limits, o, c1) && #[trigger] parses(
            codec,
            file,
            s.limits,
            o,
            c2,
        ) implies c1 == c2 by {}
    assert forall|heif: HeifFile|
        #[trigger] decodes_image_item(codec, s, false, file, heif, a) && decodes_image_item(
            codec,
            t,
            false,
            file,
            heif,
            b,
        ) implies images_agree(a, b) by {
        lemma_items_agree(codec, s, t, file, heif, a, b);
    }
    assert forall|heif: HeifFile, grid: GridInfo|
        #[trigger] decodes_image_grid(codec, s, false, file, heif, grid, a) && decodes_image_grid(
            codec,
            t,
            false,
            file,
            heif,
            grid,
            b,
        ) implies images_agree(a, b) by {
        lemma_grids_agree(codec, s, t, file, heif, grid, a, b);
    }
}

/// With a steady decoder, packed RGB comes to the same, result or error, whatever the settings say
/// of auxiliary images, unless memory runs out: no alpha image and no gain map can make it fail.
pub proof fn packed_rgb_is_the_same_for_all_auxiliary_settings<C: Codec>(
    codec: &C,
    s: HeicSettings,
    t: HeicSettings,
    file: Seq<u8>,
    a: Result<Rgb8Image, DecodeError>,
    b: Result<Rgb8Image, DecodeError>,
)
    requires
        steady(codec),
        s.limits == t.limits,
        decodes_rgb8(codec, s, file, a),
        decodes_rgb8(codec, t, file, b),
    ensures
        packed_agree(a, b),
{
    assert forall|i: Result<DecodedImage, DecodeError>, j: Result<DecodedImage, DecodeError>|
        #[trigger] decodes_image(codec, s, false, file, i) && #[trigger] decodes_image(
            codec,
            t,
            false,
            file,
            j,
        ) implies images_agree(i, j) by {
        primary_images_agree(codec, s, t, file, i, j);
    }
    if let Ok(x) = a {
        assert(x.pixels.len() == x.pixels@.len());
    }
    if let Ok(y) = b {
        assert(y.pixels.len() == y.pixels@.len());
    }
}

} // verus!
