//! Deblocking of four-line edge segments: the strong and weak luma filters and the chroma filter.
use vstd::prelude::*;
use crate::arith::{abs_int, asr, lemma_p2_values, lemma_row_major, max_int, min_int, nearest, shr_i32};

verus! {

/// How a luma edge segment is filtered. The decision is taken once for its four lines.
#[derive(Clone, Copy, PartialEq, Eq, Structural)]
pub enum LumaDecision {
    Skip,
    Strong,
    Weak { do_p1: bool, do_q1: bool },
}

impl LumaDecision {
    pub open spec fn strong(self) -> bool {
        self is Strong
    }

    /// The weak filter may move the second sample on the P side.
    pub open spec fn moves_p1(self) -> bool {
        self matches LumaDecision::Weak { do_p1, .. } && do_p1
    }

    /// The weak filter may move the second sample on the Q side.
    pub open spec fn moves_q1(self) -> bool {
        self matches LumaDecision::Weak { do_q1, .. } && do_q1
    }
}

/// Splits a decision into the strong flag and the two second-sample flags. `Skip` counts as a weak
/// filter that moves neither second sample; segments to be left alone are not passed on.
fn decompose(d: LumaDecision) -> (r: (bool, bool, bool))
    ensures
        r.0 == d.strong(),
        r.1 == d.moves_p1(),
        r.2 == d.moves_q1(),
{
    match d {
        LumaDecision::Skip => (false, false, false),
        LumaDecision::Strong => (true, false, false),
        LumaDecision::Weak { do_p1, do_q1 } => (false, do_p1, do_q1),
    }
}

/// `v` raised to `lo`, then lowered to `hi`.
pub open spec fn bound_to(v: int, lo: int, hi: int) -> int {
    min_int(max_int(v, lo), hi)
}

/// A strongly filtered sample stays within `2 * tc` of its old value and in the sample range.
pub open spec fn strong_clip(v: int, old_value: int, tc: int, maxv: int) -> int {
    bound_to(v, max_int(0, old_value - 2 * tc), min_int(maxv, old_value + 2 * tc))
}

/// Strong filter of the sample next to the edge; `a0`, `a1`, `a2` lie on its side, `b0`, `b1` on
/// the other.
pub open spec fn strong_first(a2: int, a1: int, a0: int, b0: int, b1: int) -> int {
    asr(a2 + 2 * a1 + 2 * a0 + 2 * b0 + b1 + 4, 3)
}

pub open spec fn strong_second(a2: int, a1: int, a0: int, b0: int) -> int {
    asr(a2 + a1 + a0 + b0 + 2, 2)
}

pub open spec fn strong_third(a3: int, a2: int, a1: int, a0: int, b0: int) -> int {
    asr(2 * a3 + 3 * a2 + a1 + a0 + b0 + 4, 3)
}

/// The unclipped step of the weak filter across the edge.
pub open spec fn weak_delta(p1: int, p0: int, q0: int, q1: int) -> int {
    asr(9 * (q0 - p0) - 3 * (q1 - p1) + 8, 4)
}

/// The step of the weak filter for a second sample, `d` being the clipped step on its side.
pub open spec fn weak_second_delta(a2: int, a1: int, a0: int, d: int, tc: int) -> int {
    bound_to(asr(asr(a2 + a0 + 1, 1) - a1 + d, 1), -asr(tc, 1), asr(tc, 1))
}

/// Sample `k` of a luma line after filtering. A line holds the samples `p3 p2 p1 p0 q0 q1 q2 q3`.
pub open spec fn luma_filtered(l: Seq<u16>, d: LumaDecision, tc: int, maxv: int, k: int) -> int {
    let (p3, p2, p1, p0) = (l[0] as int, l[1] as int, l[2] as int, l[3] as int);
    let (q0, q1, q2, q3) = (l[4] as int, l[5] as int, l[6] as int, l[7] as int);
    let delta0 = weak_delta(p1, p0, q0, q1);
    let active = abs_int(delta0) < 10 * tc;
    let delta = bound_to(delta0, -tc, tc);
    if d.strong() {
        if k == 1 {
            strong_clip(strong_third(p3, p2, p1, p0, q0), p2, tc, maxv)
        } else if k == 2 {
            strong_clip(strong_second(p2, p1, p0, q0), p1, tc, maxv)
        } else if k == 3 {
            strong_clip(strong_first(p2, p1, p0, q0, q1), p0, tc, maxv)
        } else if k == 4 {
            strong_clip(strong_first(q2, q1, q0, p0, p1), q0, tc, maxv)
        } else if k == 5 {
            strong_clip(strong_second(q2, q1, q0, p0), q1, tc, maxv)
        } else if k == 6 {
            strong_clip(strong_third(q3, q2, q1, q0, p0), q2, tc, maxv)
        } else {
            l[k] as int
        }
    } else if active {
        if k == 2 && d.moves_p1() {
            bound_to(p1 + weak_second_delta(p2, p1, p0, delta, tc), 0, maxv)
        } else if k == 3 {
            bound_to(p0 + delta, 0, maxv)
        } else if k == 4 {
            bound_to(q0 - delta, 0, maxv)
        } else if k == 5 && d.moves_q1() {
            bound_to(q1 + weak_second_delta(q2, q1, q0, -delta, tc), 0, maxv)
        } else {
            l[k] as int
        }
    } else {
        l[k] as int
    }
}

/// Sample `k` of a chroma line after filtering. A line holds the samples `p1 p0 q0 q1`.
pub open spec fn chroma_filtered(l: Seq<u16>, tc: int, maxv: int, k: int) -> int {
    let (p1, p0, q0, q1) = (l[0] as int, l[1] as int, l[2] as int, l[3] as int);
    let delta = bound_to(asr(4 * (q0 - p0) + (p1 - q1) + 4, 3), -tc, tc);
    if k == 1 {
        bound_to(p0 + delta, 0, maxv)
    } else if k == 2 {
        bound_to(q0 - delta, 0, maxv)
    } else {
        l[k] as int
    }
}

/// Thresholds that the filters accept: the clipping threshold leaves room for its multiples, and
/// samples fit in 16 bits.
pub open spec fn filter_args(tc: int, maxv: int) -> bool {
    0 <= tc <= 214748364 && 0 <= maxv <= 65535
}

fn bound_to_i32(v: i32, lo: i32, hi: i32) -> (r: i32)
    ensures
        r == bound_to(v as int, lo as int, hi as int),
{
    let a: i32 = if v >= lo {
        v
    } else {
        lo
    };
    if a <= hi {
        a
    } else {
        hi
    }
}

fn strong_clip_sample(v: i32, old_value: i32, tc: i32, maxv: i32) -> (r: u16)
    requires
        filter_args(tc as int, maxv as int),
        0 <= old_value <= 65535,
    ensures
        r == strong_clip(v as int, old_value as int, tc as int, maxv as int),
{
    let lo: i32 = if 0 >= old_value - 2 * tc {
        0
    } else {
        old_value - 2 * tc
    };
    let hi: i32 = if maxv <= old_value + 2 * tc {
        maxv
    } else {
        old_value + 2 * tc
    };
    bound_to_i32(v, lo, hi) as u16
}

fn weak_second_step(a2: i32, a1: i32, a0: i32, d: i32, tc: i32) -> (r: i32)
    requires
        filter_args(tc as int, 0),
        0 <= a2 <= 65535,
        0 <= a1 <= 65535,
        0 <= a0 <= 65535,
        -tc <= d <= tc,
    ensures
        r == weak_second_delta(a2 as int, a1 as int, a0 as int, d as int, tc as int),
        -tc <= r <= tc,
{
    proof {
        lemma_p2_values();
    }
    let half_tc: i32 = shr_i32(tc, 1);
    let mid: i32 = shr_i32(a2 + a0 + 1, 1);
    bound_to_i32(shr_i32(mid - a1 + d, 1), -half_tc, half_tc)
}

/// Strong filter of one luma line; the outermost samples stay.
fn luma_strong_line(l: &[u16; 8], tc: i32, maxv: i32) -> (r: [u16; 8])
    requires
        filter_args(tc as int, maxv as int),
    ensures
        forall|k: int|
            0 <= k < 8 ==> #[trigger] r@[k] == luma_filtered(
                l@,
                LumaDecision::Strong,
                tc as int,
                maxv as int,
                k,
            ),
{
    let (p3, p2, p1, p0) = (l[0] as i32, l[1] as i32, l[2] as i32, l[3] as i32);
    let (q0, q1, q2, q3) = (l[4] as i32, l[5] as i32, l[6] as i32, l[7] as i32);
    [
        l[0],
        strong_clip_sample(shr_i32(2 * p3 + 3 * p2 + p1 + p0 + q0 + 4, 3), p2, tc, maxv),
        strong_clip_sample(shr_i32(p2 + p1 + p0 + q0 + 2, 2), p1, tc, maxv),
        strong_clip_sample(shr_i32(p2 + 2 * p1 + 2 * p0 + 2 * q0 + q1 + 4, 3), p0, tc, maxv),
        strong_clip_sample(shr_i32(q2 + 2 * q1 + 2 * q0 + 2 * p0 + p1 + 4, 3), q0, tc, maxv),
        strong_clip_sample(shr_i32(q2 + q1 + q0 + p0 + 2, 2), q1, tc, maxv),
        strong_clip_sample(shr_i32(2 * q3 + 3 * q2 + q1 + q0 + p0 + 4, 3), q2, tc, maxv),
        l[7],
    ]
}

/// Weak filter of one luma line: applied only where the step across the edge is small.
fn luma_weak_line(
    l: &[u16; 8],
    d: LumaDecision,
    do_p1: bool,
    do_q1: bool,
    tc: i32,
    maxv: i32,
) -> (r: [u16; 8])
    requires
        filter_args(tc as int, maxv as int),
        !d.strong(),
        do_p1 == d.moves_p1(),
        do_q1 == d.moves_q1(),
    ensures
        forall|k: int|
            0 <= k < 8 ==> #[trigger] r@[k] == luma_filtered(l@, d, tc as int, maxv as int, k),
{
    let (p2, p1, p0) = (l[1] as i32, l[2] as i32, l[3] as i32);
    let (q0, q1, q2) = (l[4] as i32, l[5] as i32, l[6] as i32);
    proof {
        lemma_p2_values();
    }
    let delta0: i32 = shr_i32(9 * (q0 - p0) - 3 * (q1 - p1) + 8, 4);
    let magnitude: i32 = if delta0 < 0 {
        -delta0
    } else {
        delta0
    };
    if magnitude >= tc * 10 {
        return *l;
    }
    let delta: i32 = bound_to_i32(delta0, -tc, tc);
    let p1n: u16 = if do_p1 {
        bound_to_i32(p1 + weak_second_step(p2, p1, p0, delta, tc), 0, maxv) as u16
    } else {
        l[2]
    };
    let q1n: u16 = if do_q1 {
        bound_to_i32(q1 + weak_second_step(q2, q1, q0, -delta, tc), 0, maxv) as u16
    } else {
        l[5]
    };
    [
        l[0],
        l[1],
        p1n,
        bound_to_i32(p0 + delta, 0, maxv) as u16,
        bound_to_i32(q0 - delta, 0, maxv) as u16,
        q1n,
        l[6],
        l[7],
    ]
}

fn luma_filter_line(l: &[u16; 8], d: LumaDecision, tc: i32, maxv: i32) -> (r: [u16; 8])
    requires
        filter_args(tc as int, maxv as int),
    ensures
        forall|k: int|
            0 <= k < 8 ==> #[trigger] r@[k] == luma_filtered(l@, d, tc as int, maxv as int, k),
{
    let (strong, do_p1, do_q1) = decompose(d);
    if strong {
        luma_strong_line(l, tc, maxv)
    } else {
        luma_weak_line(l, d, do_p1, do_q1, tc, maxv)
    }
}

fn chroma_filter_line(l: &[u16; 4], tc: i32, maxv: i32) -> (r: [u16; 4])
    requires
        filter_args(tc as int, maxv as int),
    ensures
        forall|k: int|
            0 <= k < 4 ==> #[trigger] r@[k] == chroma_filtered(l@, tc as int, maxv as int, k),
{
    let (p1, p0, q0, q1) = (l[0] as i32, l[1] as i32, l[2] as i32, l[3] as i32);
    let delta: i32 = bound_to_i32(shr_i32(4 * (q0 - p0) + (p1 - q1) + 4, 3), -tc, tc);
    [
        l[0],
        bound_to_i32(p0 + delta, 0, maxv) as u16,
        bound_to_i32(q0 - delta, 0, maxv) as u16,
        l[3],
    ]
}

/// Where an edge segment lies in a plane: tap `k` of line `i` is `base + k * tap + i * line`.
#[derive(Clone, Copy)]
pub struct Segment {
    pub base: usize,
    pub tap: usize,
    pub line: usize,
}

impl Segment {
    pub open spec fn at(self, i: int, k: int) -> int {
        self.base + k * self.tap + i * self.line
    }

    /// The four lines of `taps` samples lie inside a plane of `len` samples and do not overlap.
    pub open spec fn fits(self, taps: int, len: int) -> bool {
        &&& (self.line == 1 && self.tap >= 4) || (self.tap == 1 && self.line >= taps)
        &&& self.base + (taps - 1) * self.tap + 3 * self.line < len
    }

    pub open spec fn samples(self, pix: Seq<u16>, taps: int, i: int) -> Seq<u16> {
        Seq::new(taps as nat, |k: int| pix[self.at(i, k)])
    }

    /// Index `j` is tap `k` of line `i` for some `i`, `k`.
    pub open spec fn covers(self, taps: int, j: int) -> bool {
        exists|i: int, k: int| 0 <= i < 4 && 0 <= k < taps && j == #[trigger] self.at(i, k)
    }
}

proof fn lemma_segment(g: Segment, taps: int, len: int, i: int, k: int, i2: int, k2: int)
    requires
        taps == 4 || taps == 8,
        g.fits(taps, len),
        0 <= i < 4,
        0 <= k < taps,
        0 <= i2 < 4,
        0 <= k2 < taps,
    ensures
        0 <= g.at(i, k) < len,
        g.at(i, k) == g.at(i2, k2) ==> i == i2 && k == k2,
{
    let t = g.tap as int;
    let l = g.line as int;
    assert(0 <= k * t <= (taps - 1) * t) by (nonlinear_arith)
        requires
            0 <= k <= taps - 1,
            0 <= t,
    ;
    assert(0 <= i * l <= 3 * l) by (nonlinear_arith)
        requires
            0 <= i <= 3,
            0 <= l,
    ;
    if g.at(i, k) == g.at(i2, k2) {
        if l == 1 {
            assert((k - k2) * t == i2 - i) by (nonlinear_arith)
                requires
                    k * t + i * l == k2 * t + i2 * l,
                    l == 1,
            ;
            assert(k == k2) by (nonlinear_arith)
                requires
                    (k - k2) * t == i2 - i,
                    -4 < i2 - i < 4,
                    t >= 4,
            ;
            assert((k - k2) * t == 0) by (nonlinear_arith)
                requires
                    k == k2,
            ;
        } else {
            assert((i - i2) * l == k2 - k) by (nonlinear_arith)
                requires
                    k * t + i * l == k2 * t + i2 * l,
                    t == 1,
            ;
            assert(i == i2) by (nonlinear_arith)
                requires
                    (i - i2) * l == k2 - k,
                    -taps < k2 - k < taps,
                    l >= taps,
            ;
            assert((i - i2) * l == 0) by (nonlinear_arith)
                requires
                    i == i2,
            ;
        }
    }
}

/// The segment of `pix` holds filtered luma lines of `before`; all other samples are unchanged.
pub open spec fn luma_segment_filtered(
    before: Seq<u16>,
    pix: Seq<u16>,
    g: Segment,
    d: LumaDecision,
    tc: int,
    maxv: int,
) -> bool {
    &&& pix.len() == before.len()
    &&& forall|i: int, k: int|
        0 <= i < 4 && 0 <= k < 8 ==> pix[#[trigger] g.at(i, k)] == luma_filtered(
            g.samples(before, 8, i),
            d,
            tc,
            maxv,
            k,
        )
    &&& forall|j: int|
        0 <= j < pix.len() && !g.covers(8, j) ==> #[trigger] pix[j] == before[j]
}

pub open spec fn chroma_segment_filtered(
    before: Seq<u16>,
    pix: Seq<u16>,
    g: Segment,
    tc: int,
    maxv: int,
) -> bool {
    &&& pix.len() == before.len()
    &&& forall|i: int, k: int|
        0 <= i < 4 && 0 <= k < 4 ==> pix[#[trigger] g.at(i, k)] == chroma_filtered(
            g.samples(before, 4, i),
            tc,
            maxv,
            k,
        )
    &&& forall|j: int|
        0 <= j < pix.len() && !g.covers(4, j) ==> #[trigger] pix[j] == before[j]
}

fn at_index(g: Segment, taps: usize, len: usize, i: usize, k: usize) -> (r: usize)
    requires
        taps == 4 || taps == 8,
        g.fits(taps as int, len as int),
        i < 4,
        k < taps,
    ensures
        r == g.at(i as int, k as int),
        r < len,
{
    proof {
        lemma_segment(g, taps as int, len as int, i as int, k as int, i as int, k as int);
        assert(0 <= k * g.tap && 0 <= i * g.line) by (nonlinear_arith);
    }
    g.base + k * g.tap + i * g.line
}

fn luma_filter_segment(pix: &mut [u16], g: Segment, d: LumaDecision, tc: i32, maxv: i32)
    requires
        g.fits(8, old(pix).len() as int),
        filter_args(tc as int, maxv as int),
    ensures
        luma_segment_filtered(old(pix)@, final(pix)@, g, d, tc as int, maxv as int),
{
    let ghost before = pix@;
    let len: usize = pix.len();
    for i in 0..4usize
        invariant
            before == old(pix)@,
            pix.len() == len,
            len == before.len(),
            g.fits(8, len as int),
            filter_args(tc as int, maxv as int),
            forall|a: int, k: int|
                0 <= a < 4 && 0 <= k < 8 ==> pix@[#[trigger] g.at(a, k)] == (if a < i {
                    luma_filtered(g.samples(before, 8, a), d, tc as int, maxv as int, k)
                } else {
                    before[g.at(a, k)] as int
                }),
            forall|j: int|
                0 <= j < len && !g.covers(8, j) ==> #[trigger] pix@[j] == before[j],
    {
        let mut l: [u16; 8] = [0; 8];
        for k in 0..8usize
            invariant
                i < 4,
                pix.len() == len,
                g.fits(8, len as int),
                forall|a: int| 0 <= a < k ==> #[trigger] l@[a] == pix@[g.at(i as int, a)],
        {
            l[k] = pix[at_index(g, 8, len, i, k)];
        }
        assert(l@ =~= g.samples(before, 8, i as int)) by {
            assert forall|a: int| 0 <= a < 8 implies #[trigger] l@[a] == before[g.at(i as int, a)] by {
                assert(pix@[g.at(i as int, a)] == before[g.at(i as int, a)]);
            }
        }
        let r: [u16; 8] = luma_filter_line(&l, d, tc, maxv);
        for k in 0..8usize
            invariant
                i < 4,
                pix.len() == len,
                len == before.len(),
                g.fits(8, len as int),
                forall|a: int|
                    0 <= a < 8 ==> #[trigger] r@[a] == luma_filtered(
                        g.samples(before, 8, i as int),
                        d,
                        tc as int,
                        maxv as int,
                        a,
                    ),
                forall|a: int, b: int|
                    0 <= a < 4 && 0 <= b < 8 ==> pix@[#[trigger] g.at(a, b)] == (if a < i || (a == i
                        && b < k) {
                        luma_filtered(g.samples(before, 8, a), d, tc as int, maxv as int, b)
                    } else {
                        before[g.at(a, b)] as int
                    }),
                forall|j: int|
                    0 <= j < len && !g.covers(8, j) ==> #[trigger] pix@[j] == before[j],
        {
            let j: usize = at_index(g, 8, len, i, k);
            proof {
                assert forall|a: int, b: int| 0 <= a < 4 && 0 <= b < 8 implies 0 <= #[trigger] g.at(
                    a,
                    b,
                ) < len && (g.at(a, b) == j ==> a == i && b == k) by {
                    lemma_segment(g, 8, len as int, a, b, i as int, k as int);
                }
            }
            pix[j] = r[k];
        }
    }
}

fn chroma_filter_segment(pix: &mut [u16], g: Segment, tc: i32, maxv: i32)
    requires
        g.fits(4, old(pix).len() as int),
        filter_args(tc as int, maxv as int),
    ensures
        chroma_segment_filtered(old(pix)@, final(pix)@, g, tc as int, maxv as int),
{
    let ghost before = pix@;
    let len: usize = pix.len();
    for i in 0..4usize
        invariant
            before == old(pix)@,
            pix.len() == len,
            len == before.len(),
            g.fits(4, len as int),
            filter_args(tc as int, maxv as int),
            forall|a: int, k: int|
                0 <= a < 4 && 0 <= k < 4 ==> pix@[#[trigger] g.at(a, k)] == (if a < i {
                    chroma_filtered(g.samples(before, 4, a), tc as int, maxv as int, k)
                } else {
                    before[g.at(a, k)] as int
                }),
            forall|j: int|
                0 <= j < len && !g.covers(4, j) ==> #[trigger] pix@[j] == before[j],
    {
        let mut l: [u16; 4] = [0; 4];
        for k in 0..4usize
            invariant
                i < 4,
                pix.len() == len,
                g.fits(4, len as int),
                forall|a: int| 0 <= a < k ==> #[trigger] l@[a] == pix@[g.at(i as int, a)],
        {
            l[k] = pix[at_index(g, 4, len, i, k)];
        }
        assert(l@ =~= g.samples(before, 4, i as int)) by {
            assert forall|a: int| 0 <= a < 4 implies #[trigger] l@[a] == before[g.at(i as int, a)] by {
                assert(pix@[g.at(i as int, a)] == before[g.at(i as int, a)]);
            }
        }
        let r: [u16; 4] = chroma_filter_line(&l, tc, maxv);
        for k in 0..4usize
            invariant
                i < 4,
                pix.len() == len,
                len == before.len(),
                g.fits(4, len as int),
                forall|a: int|
                    0 <= a < 4 ==> #[trigger] r@[a] == chroma_filtered(
                        g.samples(before, 4, i as int),
                        tc as int,
                        maxv as int,
                        a,
                    ),
                forall|a: int, b: int|
                    0 <= a < 4 && 0 <= b < 4 ==> pix@[#[trigger] g.at(a, b)] == (if a < i || (a == i
                        && b < k) {
                        chroma_filtered(g.samples(before, 4, a), tc as int, maxv as int, b)
                    } else {
                        before[g.at(a, b)] as int
                    }),
                forall|j: int|
                    0 <= j < len && !g.covers(4, j) ==> #[trigger] pix@[j] == before[j],
        {
            let j: usize = at_index(g, 4, len, i, k);
            proof {
                assert forall|a: int, b: int| 0 <= a < 4 && 0 <= b < 4 implies 0 <= #[trigger] g.at(
                    a,
                    b,
                ) < len && (g.at(a, b) == j ==> a == i && b == k) by {
                    lemma_segment(g, 4, len as int, a, b, i as int, k as int);
                }
            }
            pix[j] = r[k];
        }
    }
}

/// The segment that `chroma_horizontal_plane` filters.
pub open spec fn chroma_horizontal_segment(
    cw: usize,
    edge: usize,
    scan: usize,
    crow0: usize,
) -> Segment {
    Segment { base: ((edge - 2 - crow0) * cw + scan) as usize, tap: cw, line: 1 }
}

/// The edge is far enough from the borders for `chroma_horizontal_plane` to filter it.
pub open spec fn chroma_horizontal_applies(
    cw: usize,
    edge: usize,
    scan: usize,
    crow0: usize,
) -> bool {
    cw != 0 && scan + 4 <= cw && edge >= crow0 + 2
}

/// What `chroma_horizontal_plane` makes of a plane: the segment filtered, or everything as it was.
pub open spec fn chroma_horizontal_filtered(
    before: Seq<u16>,
    pix: Seq<u16>,
    cw: usize,
    edge: usize,
    scan: usize,
    crow0: usize,
    tc: int,
    maxv: int,
) -> bool {
    if chroma_horizontal_applies(cw, edge, scan, crow0) {
        chroma_segment_filtered(
            before,
            pix,
            chroma_horizontal_segment(cw, edge, scan, crow0),
            tc,
            maxv,
        )
    } else {
        pix == before
    }
}

/// Filters the four chroma columns `scan..scan + 4` across the horizontal edge above row `edge`, in
/// a band of rows that starts at row `crow0`. Edges too close to its start are left alone.
pub fn chroma_horizontal_plane(
    pix: &mut [u16],
    cw: usize,
    edge: usize,
    scan: usize,
    crow0: usize,
    tc_c: i32,
    maxv_c: i32,
)
    requires
        scan + 4 <= usize::MAX,
        crow0 + 2 <= usize::MAX,
        edge + 2 <= usize::MAX,
        filter_args(tc_c as int, maxv_c as int),
        chroma_horizontal_applies(cw, edge, scan, crow0) ==> (edge + 2 - crow0) * cw
            <= old(pix).len(),
    ensures
        chroma_horizontal_filtered(
            old(pix)@,
            final(pix)@,
            cw,
            edge,
            scan,
            crow0,
            tc_c as int,
            maxv_c as int,
        ),
{
    if cw == 0 || scan + 4 > cw || edge < crow0 + 2 {
        return;
    }
    proof {
        let r = edge - 2 - crow0;
        assert(r * cw + scan + 3 * cw + 3 < (r + 4) * cw && 0 <= r * cw) by (nonlinear_arith)
            requires
                0 <= r,
                scan + 4 <= cw,
        ;
    }
    let g: Segment = Segment { base: (edge - 2 - crow0) * cw + scan, tap: cw, line: 1 };
    chroma_filter_segment(pix, g, tc_c, maxv_c);
}

/// The segment that `chroma_vertical_plane` filters.
pub open spec fn chroma_vertical_segment(
    cw: usize,
    edge: usize,
    s: usize,
    crow0: usize,
) -> Segment {
    Segment { base: ((s - crow0) * cw + edge - 2) as usize, tap: 1, line: cw }
}

/// The edge is far enough from the borders for `chroma_vertical_plane` to filter it.
pub open spec fn chroma_vertical_applies(
    cw: usize,
    edge: usize,
    s: usize,
    crow0: usize,
) -> bool {
    cw != 0 && edge >= 2 && edge + 1 < cw && s >= crow0
}

/// What `chroma_vertical_plane` makes of a plane: the segment filtered, or everything as it was.
pub open spec fn chroma_vertical_filtered(
    before: Seq<u16>,
    pix: Seq<u16>,
    cw: usize,
    edge: usize,
    s: usize,
    crow0: usize,
    tc: int,
    maxv: int,
) -> bool {
    if chroma_vertical_applies(cw, edge, s, crow0) {
        chroma_segment_filtered(
            before,
            pix,
            chroma_vertical_segment(cw, edge, s, crow0),
            tc,
            maxv,
        )
    } else {
        pix == before
    }
}

/// Filters the four chroma rows from row `s` on across the vertical edge left of column `edge`, in
/// a band of rows that starts at row `crow0`. Edges too close to the plane border are left alone.
pub fn chroma_vertical_plane(
    pix: &mut [u16],
    cw: usize,
    edge: usize,
    s: usize,
    crow0: usize,
    tc_c: i32,
    maxv_c: i32,
)
    requires
        edge + 1 <= usize::MAX,
        filter_args(tc_c as int, maxv_c as int),
        chroma_vertical_applies(cw, edge, s, crow0) ==> (s - crow0 + 4) * cw
            <= old(pix).len(),
    ensures
        chroma_vertical_filtered(
            old(pix)@,
            final(pix)@,
            cw,
            edge,
            s,
            crow0,
            tc_c as int,
            maxv_c as int,
        ),
{
    if cw == 0 || edge < 2 || edge + 1 >= cw || s < crow0 {
        return;
    }
    proof {
        let r = s - crow0;
        assert(r * cw + edge - 2 + 3 + 3 * cw < (r + 4) * cw && 0 <= r * cw) by (nonlinear_arith)
            requires
                0 <= r,
                edge + 1 < cw,
        ;
    }
    let g: Segment = Segment { base: (s - crow0) * cw + edge - 2, tap: 1, line: cw };
    chroma_filter_segment(pix, g, tc_c, maxv_c);
}

/// The segment that `luma_horizontal_plane` filters.
pub open spec fn luma_horizontal_segment(
    w: usize,
    edge: usize,
    scan: usize,
    row0: usize,
) -> Segment {
    Segment { base: ((edge - 4 - row0) * w + scan) as usize, tap: w, line: 1 }
}

/// The edge is far enough from the borders for `luma_horizontal_plane` to filter it.
pub open spec fn luma_horizontal_applies(
    w: usize,
    edge: usize,
    scan: usize,
    row0: usize,
) -> bool {
    w != 0 && scan + 4 <= w && edge >= row0 + 4
}

/// What `luma_horizontal_plane` makes of a plane: the segment filtered, or everything as it was.
pub open spec fn luma_horizontal_filtered(
    before: Seq<u16>,
    pix: Seq<u16>,
    w: usize,
    edge: usize,
    scan: usize,
    row0: usize,
    d: LumaDecision,
    tc: int,
    maxv: int,
) -> bool {
    if luma_horizontal_applies(w, edge, scan, row0) {
        luma_segment_filtered(
            before,
            pix,
            luma_horizontal_segment(w, edge, scan, row0),
            d,
            tc,
            maxv,
        )
    } else {
        pix == before
    }
}

/// Filters the four luma columns `scan..scan + 4` across the horizontal edge above row `edge` of a
/// band of rows that starts at row `row0`. Edges too close to the start of the band are left alone.
pub fn luma_horizontal_plane(
    pix: &mut [u16],
    w: usize,
    edge: usize,
    scan: usize,
    row0: usize,
    decision: LumaDecision,
    tc: i32,
    maxv: i32,
)
    requires
        scan + 4 <= usize::MAX,
        row0 + 4 <= usize::MAX,
        edge + 4 <= usize::MAX,
        filter_args(tc as int, maxv as int),
        luma_horizontal_applies(w, edge, scan, row0) ==> (edge + 4 - row0) * w
            <= old(pix).len(),
    ensures
        luma_horizontal_filtered(
            old(pix)@,
            final(pix)@,
            w,
            edge,
            scan,
            row0,
            decision,
            tc as int,
            maxv as int,
        ),
{
    if w == 0 || scan + 4 > w || edge < row0 + 4 {
        return;
    }
    proof {
        let r = edge - 4 - row0;
        assert(r * w + scan + 7 * w + 3 < (r + 8) * w && 0 <= r * w) by (nonlinear_arith)
            requires
                0 <= r,
                scan + 4 <= w,
        ;
    }
    let g: Segment = Segment { base: (edge - 4 - row0) * w + scan, tap: w, line: 1 };
    luma_filter_segment(pix, g, decision, tc, maxv);
}

/// The segment that `luma_vertical_plane` filters.
pub open spec fn luma_vertical_segment(
    w: usize,
    edge: usize,
    s: usize,
    row0: usize,
) -> Segment {
    Segment { base: ((s - row0) * w + edge - 4) as usize, tap: 1, line: w }
}

/// The edge is far enough from the borders for `luma_vertical_plane` to filter it.
pub open spec fn luma_vertical_applies(
    w: usize,
    edge: usize,
    s: usize,
    row0: usize,
) -> bool {
    w != 0 && edge >= 4 && edge + 3 < w && s >= row0
}

/// What `luma_vertical_plane` makes of a plane: the segment filtered, or everything as it was.
pub open spec fn luma_vertical_filtered(
    before: Seq<u16>,
    pix: Seq<u16>,
    w: usize,
    edge: usize,
    s: usize,
    row0: usize,
    d: LumaDecision,
    tc: int,
    maxv: int,
) -> bool {
    if luma_vertical_applies(w, edge, s, row0) {
        luma_segment_filtered(
            before,
            pix,
            luma_vertical_segment(w, edge, s, row0),
            d,
            tc,
            maxv,
        )
    } else {
        pix == before
    }
}

/// Filters the four luma rows from row `s` on across the vertical edge left of column `edge`, in a
/// band of rows that starts at row `row0`. Edges too close to the plane border are left alone.
pub fn luma_vertical_plane(
    pix: &mut [u16],
    w: usize,
    edge: usize,
    s: usize,
    row0: usize,
    decision: LumaDecision,
    tc: i32,
    maxv: i32,
)
    requires
        edge + 3 <= usize::MAX,
        filter_args(tc as int, maxv as int),
        luma_vertical_applies(w, edge, s, row0) ==> (s - row0 + 4) * w
            <= old(pix).len(),
    ensures
        luma_vertical_filtered(
            old(pix)@,
            final(pix)@,
            w,
            edge,
            s,
            row0,
            decision,
            tc as int,
            maxv as int,
        ),
{
    if w == 0 || edge < 4 || edge + 3 >= w || s < row0 {
        return;
    }
    proof {
        let r = s - row0;
        assert(r * w + edge - 4 + 7 + 3 * w < (r + 4) * w && 0 <= r * w) by (nonlinear_arith)
            requires
                0 <= r,
                edge + 3 < w,
        ;
    }
    let g: Segment = Segment { base: (s - row0) * w + edge - 4, tap: 1, line: w };
    luma_filter_segment(pix, g, decision, tc, maxv);
}

/// Samples of a line are valid for the sample range.
pub open spec fn in_range(l: Seq<u16>, maxv: int) -> bool {
    forall|k: int| 0 <= k < l.len() ==> #[trigger] l[k] <= maxv
}

/// Filtering keeps samples in the sample range, leaves the outermost luma samples alone, and moves
/// no sample by more than `2 * tc` (strong) or `tc` (weak).
pub proof fn luma_filter_moves_little(l: Seq<u16>, d: LumaDecision, tc: int, maxv: int, k: int)
    requires
        l.len() == 8,
        0 <= k < 8,
        filter_args(tc, maxv),
        in_range(l, maxv),
    ensures
        0 <= luma_filtered(l, d, tc, maxv, k) <= maxv,
        k == 0 || k == 7 ==> luma_filtered(l, d, tc, maxv, k) == l[k],
        abs_int(luma_filtered(l, d, tc, maxv, k) - l[k]) <= (if d.strong() {
            2 * tc
        } else {
            tc
        }),
{
    lemma_p2_values();
}

/// Chroma filtering keeps samples in range and moves only the two samples at the edge, by at most
/// `tc`.
pub proof fn chroma_filter_moves_little(l: Seq<u16>, tc: int, maxv: int, k: int)
    requires
        l.len() == 4,
        0 <= k < 4,
        filter_args(tc, maxv),
        in_range(l, maxv),
    ensures
        0 <= chroma_filtered(l, tc, maxv, k) <= maxv,
        k == 0 || k == 3 ==> chroma_filtered(l, tc, maxv, k) == l[k],
        abs_int(chroma_filtered(l, tc, maxv, k) - l[k]) <= tc,
{
}

/// A line without an edge is a fixed point of every filter.
pub proof fn flat_lines_stay(l: Seq<u16>, c: Seq<u16>, d: LumaDecision, tc: int, maxv: int, k: int)
    requires
        l.len() == 8,
        c.len() == 4,
        filter_args(tc, maxv),
        in_range(l, maxv),
        in_range(c, maxv),
        forall|j: int| 0 <= j < 8 ==> #[trigger] l[j] == l[0],
        forall|j: int| 0 <= j < 4 ==> #[trigger] c[j] == c[0],
    ensures
        0 <= k < 8 ==> luma_filtered(l, d, tc, maxv, k) == l[k],
        0 <= k < 4 ==> chroma_filtered(c, tc, maxv, k) == c[k],
{
    lemma_p2_values();
}

/// The strong filter does not distinguish the two sides of an edge.
pub proof fn strong_filter_is_symmetric(l: Seq<u16>, tc: int, maxv: int, k: int)
    requires
        l.len() == 8,
        0 <= k < 8,
    ensures
        luma_filtered(l.reverse(), LumaDecision::Strong, tc, maxv, k) == luma_filtered(
            l,
            LumaDecision::Strong,
            tc,
            maxv,
            7 - k,
        ),
{
}

proof fn lemma_rows_place(len: int, w: int, r: int, c: int, taps: int)
    requires
        0 < taps,
        0 <= r,
        0 <= c,
        c + 4 <= w,
        (r + taps) * w <= len,
    ensures
        0 <= r * w,
        r * w + c < len,
{
    assert(0 <= r * w && r * w + w <= (r + taps) * w) by (nonlinear_arith)
        requires
            0 <= r,
            0 <= w,
            taps >= 1,
    ;
}

proof fn lemma_columns_place(len: int, w: int, r: int, c: int, taps: int)
    requires
        0 < taps,
        0 <= r,
        0 <= c,
        c + taps <= w,
        (r + 4) * w <= len,
    ensures
        0 <= r * w,
        r * w + c < len,
{
    assert(0 <= r * w && r * w + w <= (r + 4) * w) by (nonlinear_arith)
        requires
            0 <= r,
            0 <= w,
    ;
}

/// The four columns from `at` on are filtered down the rows `edge - 4` to `edge + 3`, counted from
/// row `row0`: each sample becomes the filtered one of its own column. Nothing else changes, and
/// nothing at all where those rows or columns are not there.
pub proof fn luma_horizontal_edges_are_filtered_in_place(
    before: Seq<u16>,
    pix: Seq<u16>,
    w: usize,
    edge: usize,
    at: usize,
    row0: usize,
    d: LumaDecision,
    tc: int,
    maxv: int,
    x: int,
    y: int,
)
    requires
        before.len() <= usize::MAX,
        at + 4 <= w && edge >= row0 + 4 ==> (edge + 4 - row0) * w <= before.len(),
        0 <= x < w,
        0 <= y,
        y * w + x < before.len(),
        luma_horizontal_filtered(before, pix, w, edge, at, row0, d, tc, maxv),
    ensures
        pix.len() == before.len(),
        pix[y * w + x] == (if at + 4 <= w && edge >= row0 + 4 && at <= x < at + 4 && edge - 4 <= y + row0 < edge + 4 {
            luma_filtered(
                Seq::new(8, |k: int| before[(edge - 4 - row0 + k) * w + x]),
                d, tc,
                maxv,
                y + row0 - (edge - 4),
            )
        } else {
            before[y * w + x] as int
        }),
{
    if luma_horizontal_applies(w, edge, at, row0) {
        let g = luma_horizontal_segment(w, edge, at, row0);
        let (r, c) = (edge - 4 - row0, at as int);
        lemma_rows_place(before.len() as int, w as int, r, c, 8);
        assert(g.base == r * w + c);
        if at <= x < at + 4 && edge - 4 <= y + row0 < edge + 4 {
            let (i, k) = (x - at, y + row0 - (edge - 4));
            let line = Seq::new(8, |k: int| before[(edge - 4 - row0 + k) * w + x]);
            assert forall|j: int| 0 <= j < 8 implies g.samples(before, 8, i)[j] == line[j] by {
                assert(g.at(i, j) == (edge - 4 - row0 + j) * w + x) by (nonlinear_arith)
                    requires
                        g.at(i, j) == g.base + j * g.tap + i * g.line,
                        g.base == (edge - 4 - row0) * w + at,
                        g.tap == w,
                        g.line == 1,
                        i == x - at,
                ;
            }
            assert(g.samples(before, 8, i) =~= line);
            assert(g.at(i, k) == y * w + x) by (nonlinear_arith)
                requires
                    g.at(i, k) == g.base + k * g.tap + i * g.line,
                    g.base == (edge - 4 - row0) * w + at,
                    g.tap == w,
                    g.line == 1,
                    i == x - at,
                    k == y + row0 - (edge - 4),
            ;
        } else {
            assert(0 <= y * w) by (nonlinear_arith)
                requires
                    0 <= y,
                    0 <= w,
            ;
            assert forall|i: int, k: int| 0 <= i < 4 && 0 <= k < 8 implies y * w + x
                != #[trigger] g.at(i, k) by {
                assert(g.at(i, k) == (r + k) * w + (c + i)) by (nonlinear_arith)
                    requires
                        g.at(i, k) == g.base + k * g.tap + i * g.line,
                        g.base == r * w + c,
                        g.tap == w,
                        g.line == 1,
                ;
                lemma_row_major(r + k, c + i, w as int, r + k + 1);
                lemma_row_major(y, x, w as int, y + 1);
            }
            assert(!g.covers(8, y * w + x));
        }
    }
}

/// The four rows from `at` on are filtered along the columns `edge - 4` to `edge + 3`; rows are
/// counted from row `row0`. Each sample becomes the filtered one of its own row. Nothing else
/// changes, and nothing at all where those columns or rows are not there.
pub proof fn luma_vertical_edges_are_filtered_in_place(
    before: Seq<u16>,
    pix: Seq<u16>,
    w: usize,
    edge: usize,
    at: usize,
    row0: usize,
    d: LumaDecision,
    tc: int,
    maxv: int,
    x: int,
    y: int,
)
    requires
        before.len() <= usize::MAX,
        edge >= 4 && edge + 3 < w && at >= row0 ==> (at - row0 + 4) * w <= before.len(),
        0 <= x < w,
        0 <= y,
        y * w + x < before.len(),
        luma_vertical_filtered(before, pix, w, edge, at, row0, d, tc, maxv),
    ensures
        pix.len() == before.len(),
        pix[y * w + x] == (if edge >= 4 && edge + 3 < w && at >= row0 && edge - 4 <= x < edge + 4 && at <= y + row0 < at + 4 {
            luma_filtered(
                Seq::new(8, |k: int| before[y * w + (edge - 4 + k)]),
                d, tc,
                maxv,
                x - (edge - 4),
            )
        } else {
            before[y * w + x] as int
        }),
{
    if luma_vertical_applies(w, edge, at, row0) {
        let g = luma_vertical_segment(w, edge, at, row0);
        let (r, c) = (at - row0, edge - 4);
        lemma_columns_place(before.len() as int, w as int, r, c, 8);
        assert(g.base == r * w + c);
        if edge - 4 <= x < edge + 4 && at <= y + row0 < at + 4 {
            let (i, k) = (y + row0 - at, x - (edge - 4));
            let line = Seq::new(8, |k: int| before[y * w + (edge - 4 + k)]);
            assert forall|j: int| 0 <= j < 8 implies g.samples(before, 8, i)[j] == line[j] by {
                assert(g.at(i, j) == y * w + (edge - 4 + j)) by (nonlinear_arith)
                    requires
                        g.at(i, j) == g.base + j * g.tap + i * g.line,
                        g.base == (at - row0) * w + (edge - 4),
                        g.tap == 1,
                        g.line == w,
                        i == y + row0 - at,
                ;
            }
            assert(g.samples(before, 8, i) =~= line);
            assert(g.at(i, k) == y * w + x) by (nonlinear_arith)
                requires
                    g.at(i, k) == g.base + k * g.tap + i * g.line,
                    g.base == (at - row0) * w + (edge - 4),
                    g.tap == 1,
                    g.line == w,
                    i == y + row0 - at,
                    k == x - (edge - 4),
            ;
        } else {
            assert(0 <= y * w) by (nonlinear_arith)
                requires
                    0 <= y,
                    0 <= w,
            ;
            assert forall|i: int, k: int| 0 <= i < 4 && 0 <= k < 8 implies y * w + x
                != #[trigger] g.at(i, k) by {
                assert(g.at(i, k) == (r + i) * w + (c + k)) by (nonlinear_arith)
                    requires
                        g.at(i, k) == g.base + k * g.tap + i * g.line,
                        g.base == r * w + c,
                        g.tap == 1,
                        g.line == w,
                ;
                lemma_row_major(r + i, c + k, w as int, r + i + 1);
                lemma_row_major(y, x, w as int, y + 1);
            }
            assert(!g.covers(8, y * w + x));
        }
    }
}

/// The four columns from `at` on are filtered down the rows `edge - 2` to `edge + 1`, counted from
/// row `row0`: each sample becomes the filtered one of its own column. Nothing else changes, and
/// nothing at all where those rows or columns are not there.
pub proof fn chroma_horizontal_edges_are_filtered_in_place(
    before: Seq<u16>,
    pix: Seq<u16>,
    w: usize,
    edge: usize,
    at: usize,
    row0: usize,
    tc: int,
    maxv: int,
    x: int,
    y: int,
)
    requires
        before.len() <= usize::MAX,
        at + 4 <= w && edge >= row0 + 2 ==> (edge + 2 - row0) * w <= before.len(),
        0 <= x < w,
        0 <= y,
        y * w + x < before.len(),
        chroma_horizontal_filtered(before, pix, w, edge, at, row0, tc, maxv),
    ensures
        pix.len() == before.len(),
        pix[y * w + x] == (if at + 4 <= w && edge >= row0 + 2 && at <= x < at + 4 && edge - 2 <= y + row0 < edge + 2 {
            chroma_filtered(
                Seq::new(4, |k: int| before[(edge - 2 - row0 + k) * w + x]),
                tc,
                maxv,
                y + row0 - (edge - 2),
            )
        } else {
            before[y * w + x] as int
        }),
{
    if chroma_horizontal_applies(w, edge, at, row0) {
        let g = chroma_horizontal_segment(w, edge, at, row0);
        let (r, c) = (edge - 2 - row0, at as int);
        lemma_rows_place(before.len() as int, w as int, r, c, 4);
        assert(g.base == r * w + c);
        if at <= x < at + 4 && edge - 2 <= y + row0 < edge + 2 {
            let (i, k) = (x - at, y + row0 - (edge - 2));
            let line = Seq::new(4, |k: int| before[(edge - 2 - row0 + k) * w + x]);
            assert forall|j: int| 0 <= j < 4 implies g.samples(before, 4, i)[j] == line[j] by {
                assert(g.at(i, j) == (edge - 2 - row0 + j) * w + x) by (nonlinear_arith)
                    requires
                        g.at(i, j) == g.base + j * g.tap + i * g.line,
                        g.base == (edge - 2 - row0) * w + at,
                        g.tap == w,
                        g.line == 1,
                        i == x - at,
                ;
            }
            assert(g.samples(before, 4, i) =~= line);
            assert(g.at(i, k) == y * w + x) by (nonlinear_arith)
                requires
                    g.at(i, k) == g.base + k * g.tap + i * g.line,
                    g.base == (edge - 2 - row0) * w + at,
                    g.tap == w,
                    g.line == 1,
                    i == x - at,
                    k == y + row0 - (edge - 2),
            ;
        } else {
            assert(0 <= y * w) by (nonlinear_arith)
                requires
                    0 <= y,
                    0 <= w,
            ;
            assert forall|i: int, k: int| 0 <= i < 4 && 0 <= k < 4 implies y * w + x
                != #[trigger] g.at(i, k) by {
                assert(g.at(i, k) == (r + k) * w + (c + i)) by (nonlinear_arith)
                    requires
                        g.at(i, k) == g.base + k * g.tap + i * g.line,
                        g.base == r * w + c,
                        g.tap == w,
                        g.line == 1,
                ;
                lemma_row_major(r + k, c + i, w as int, r + k + 1);
                lemma_row_major(y, x, w as int, y + 1);
            }
            assert(!g.covers(4, y * w + x));
        }
    }
}

/// The four rows from `at` on are filtered along the columns `edge - 2` to `edge + 1`; rows are
/// counted from row `row0`. Each sample becomes the filtered one of its own row. Nothing else
/// changes, and nothing at all where those columns or rows are not there.
pub proof fn chroma_vertical_edges_are_filtered_in_place(
    before: Seq<u16>,
    pix: Seq<u16>,
    w: usize,
    edge: usize,
    at: usize,
    row0: usize,
    tc: int,
    maxv: int,
    x: int,
    y: int,
)
    requires
        before.len() <= usize::MAX,
        edge >= 2 && edge + 1 < w && at >= row0 ==> (at - row0 + 4) * w <= before.len(),
        0 <= x < w,
        0 <= y,
        y * w + x < before.len(),
        chroma_vertical_filtered(before, pix, w, edge, at, row0, tc, maxv),
    ensures
        pix.len() == before.len(),
        pix[y * w + x] == (if edge >= 2 && edge + 1 < w && at >= row0 && edge - 2 <= x < edge + 2 && at <= y + row0 < at + 4 {
            chroma_filtered(
                Seq::new(4, |k: int| before[y * w + (edge - 2 + k)]),
                tc,
                maxv,
                x - (edge - 2),
            )
        } else {
            before[y * w + x] as int
        }),
{
    if chroma_vertical_applies(w, edge, at, row0) {
        let g = chroma_vertical_segment(w, edge, at, row0);
        let (r, c) = (at - row0, edge - 2);
        lemma_columns_place(before.len() as int, w as int, r, c, 4);
        assert(g.base == r * w + c);
        if edge - 2 <= x < edge + 2 && at <= y + row0 < at + 4 {
            let (i, k) = (y + row0 - at, x - (edge - 2));
            let line = Seq::new(4, |k: int| before[y * w + (edge - 2 + k)]);
            assert forall|j: int| 0 <= j < 4 implies g.samples(before, 4, i)[j] == line[j] by {
                assert(g.at(i, j) == y * w + (edge - 2 + j)) by (nonlinear_arith)
                    requires
                        g.at(i, j) == g.base + j * g.tap + i * g.line,
                        g.base == (at - row0) * w + (edge - 2),
                        g.tap == 1,
                        g.line == w,
                        i == y + row0 - at,
                ;
            }
            assert(g.samples(before, 4, i) =~= line);
            assert(g.at(i, k) == y * w + x) by (nonlinear_arith)
                requires
                    g.at(i, k) == g.base + k * g.tap + i * g.line,
                    g.base == (at - row0) * w + (edge - 2),
                    g.tap == 1,
                    g.line == w,
                    i == y + row0 - at,
                    k == x - (edge - 2),
            ;
        } else {
            assert(0 <= y * w) by (nonlinear_arith)
                requires
                    0 <= y,
                    0 <= w,
            ;
            assert forall|i: int, k: int| 0 <= i < 4 && 0 <= k < 4 implies y * w + x
                != #[trigger] g.at(i, k) by {
                assert(g.at(i, k) == (r + i) * w + (c + k)) by (nonlinear_arith)
                    requires
                        g.at(i, k) == g.base + k * g.tap + i * g.line,
                        g.base == r * w + c,
                        g.tap == 1,
                        g.line == w,
                ;
                lemma_row_major(r + i, c + k, w as int, r + i + 1);
                lemma_row_major(y, x, w as int, y + 1);
            }
            assert(!g.covers(4, y * w + x));
        }
    }
}

/// `v` is `t`, or the nearer of the bounds if it lies outside them.
pub open spec fn nearest_within(v: int, t: int, lo: int, hi: int) -> bool {
    &&& lo <= t <= hi ==> v == t
    &&& t < lo ==> v == lo
    &&& t > hi ==> v == hi
}

/// The strong filter takes weighted means of the line, to the nearest: weights 1 2 2 2 1 around the
/// sample at the edge, 1 1 1 1 for the second, 2 3 1 1 1 for the third. No sample moves by more
/// than twice the threshold, and the outermost stay.
pub proof fn strong_filter_takes_means(l: Seq<u16>, tc: int, maxv: int, t: Seq<int>)
    requires
        l.len() == 8,
        filter_args(tc, maxv),
        in_range(l, maxv),
        t.len() == 8,
        nearest(t[1], 2 * l[0] + 3 * l[1] + l[2] + l[3] + l[4], 8),
        nearest(t[2], l[1] + l[2] + l[3] + l[4], 4),
        nearest(t[3], l[1] + 2 * l[2] + 2 * l[3] + 2 * l[4] + l[5], 8),
        nearest(t[4], l[2] + 2 * l[3] + 2 * l[4] + 2 * l[5] + l[6], 8),
        nearest(t[5], l[3] + l[4] + l[5] + l[6], 4),
        nearest(t[6], l[3] + l[4] + l[5] + 3 * l[6] + 2 * l[7], 8),
    ensures
        forall|k: int|
            1 <= k < 7 ==> nearest_within(
                #[trigger] luma_filtered(l, LumaDecision::Strong, tc, maxv, k),
                t[k],
                l[k] - 2 * tc,
                l[k] + 2 * tc,
            ),
        luma_filtered(l, LumaDecision::Strong, tc, maxv, 0) == l[0],
        luma_filtered(l, LumaDecision::Strong, tc, maxv, 7) == l[7],
{
    let (a, b, c, d) = (l[0] as int, l[1] as int, l[2] as int, l[3] as int);
    let (e, f, g, h) = (l[4] as int, l[5] as int, l[6] as int, l[7] as int);
    assert(0 <= a <= maxv && 0 <= b <= maxv && 0 <= c <= maxv && 0 <= d <= maxv);
    assert(0 <= e <= maxv && 0 <= f <= maxv && 0 <= g <= maxv && 0 <= h <= maxv);
    lemma_eighths(2 * a + 3 * b + c + d + e, t[1]);
    lemma_quarters(b + c + d + e, t[2]);
    lemma_eighths(b + 2 * c + 2 * d + 2 * e + f, t[3]);
    lemma_eighths(g + 2 * f + 2 * e + 2 * d + c, t[4]);
    lemma_quarters(g + f + e + d, t[5]);
    lemma_eighths(2 * h + 3 * g + f + e + d, t[6]);
    lemma_strong_clip(t[1], b, tc, maxv);
    lemma_strong_clip(t[2], c, tc, maxv);
    lemma_strong_clip(t[3], d, tc, maxv);
    lemma_strong_clip(t[4], e, tc, maxv);
    lemma_strong_clip(t[5], f, tc, maxv);
    lemma_strong_clip(t[6], g, tc, maxv);
    assert forall|k: int| 1 <= k < 7 implies nearest_within(
        #[trigger] luma_filtered(l, LumaDecision::Strong, tc, maxv, k),
        t[k],
        l[k] - 2 * tc,
        l[k] + 2 * tc,
    ) by {
        assert(k == 1 || k == 2 || k == 3 || k == 4 || k == 5 || k == 6);
    }
}

proof fn lemma_eighths(sum: int, t: int)
    requires
        nearest(t, sum, 8),
    ensures
        asr(sum + 4, 3) == t,
{
    lemma_p2_values();
}

proof fn lemma_quarters(sum: int, t: int)
    requires
        nearest(t, sum, 4),
    ensures
        asr(sum + 2, 2) == t,
{
    lemma_p2_values();
}

proof fn lemma_strong_clip(t: int, v: int, tc: int, maxv: int)
    requires
        0 <= t <= maxv,
        0 <= v <= maxv,
        0 <= tc,
    ensures
        nearest_within(strong_clip(t, v, tc, maxv), t, v - 2 * tc, v + 2 * tc),
{
}

/// The weak filter moves the two samples at the edge towards each other by nine sixteenths of their
/// step less three sixteenths of the step around them, to the nearest and within the threshold. A
/// step of ten thresholds or more is left alone. A second sample moves, if it may, half of the way
/// to the middle of its neighbours and of the first step, within half of the threshold.
pub proof fn weak_filter_closes_the_step(
    l: Seq<u16>,
    d: LumaDecision,
    tc: int,
    maxv: int,
    t: int,
    delta: int,
    half: int,
    p_mid: int,
    p_step: int,
    q_mid: int,
    q_step: int,
)
    requires
        l.len() == 8,
        filter_args(tc, maxv),
        in_range(l, maxv),
        !(d is Strong),
        nearest(t, 9 * (l[4] - l[3]) - 3 * (l[5] - l[2]), 16),
        nearest_within(delta, t, -tc, tc),
        tc - 1 <= 2 * half <= tc,
        l[1] + l[3] <= 2 * p_mid <= l[1] + l[3] + 1,
        l[4] + l[6] <= 2 * q_mid <= l[4] + l[6] + 1,
        2 * p_step <= p_mid - l[2] + delta <= 2 * p_step + 1,
        2 * q_step <= q_mid - l[5] - delta <= 2 * q_step + 1,
    ensures
        forall|k: int|
            0 <= k < 8 && (t >= 10 * tc || t <= -10 * tc) ==> #[trigger] luma_filtered(
                l,
                d,
                tc,
                maxv,
                k,
            ) == l[k],
        -10 * tc < t < 10 * tc ==> {
            &&& nearest_within(luma_filtered(l, d, tc, maxv, 3), l[3] + delta, 0, maxv)
            &&& nearest_within(luma_filtered(l, d, tc, maxv, 4), l[4] - delta, 0, maxv)
            &&& luma_filtered(l, d, tc, maxv, 0) == l[0]
            &&& luma_filtered(l, d, tc, maxv, 1) == l[1]
            &&& luma_filtered(l, d, tc, maxv, 6) == l[6]
            &&& luma_filtered(l, d, tc, maxv, 7) == l[7]
            &&& if d matches LumaDecision::Weak { do_p1, .. } && do_p1 {
                exists|s: int| #[trigger]
                    nearest_within(s, p_step, -half, half) && nearest_within(
                        luma_filtered(l, d, tc, maxv, 2),
                        l[2] + s,
                        0,
                        maxv,
                    )
            } else {
                luma_filtered(l, d, tc, maxv, 2) == l[2]
            }
            &&& if d matches LumaDecision::Weak { do_q1, .. } && do_q1 {
                exists|s: int| #[trigger]
                    nearest_within(s, q_step, -half, half) && nearest_within(
                        luma_filtered(l, d, tc, maxv, 5),
                        l[5] + s,
                        0,
                        maxv,
                    )
            } else {
                luma_filtered(l, d, tc, maxv, 5) == l[5]
            }
        },
{
    lemma_p2_values();
    let s = bound_to(p_step, -half, half);
    let u = bound_to(q_step, -half, half);
    assert(nearest_within(s, p_step, -half, half));
    assert(nearest_within(u, q_step, -half, half));
    assert(weak_delta(l[2] as int, l[3] as int, l[4] as int, l[5] as int) == t);
    assert(bound_to(t, -tc, tc) == delta);
    assert(asr(tc, 1) == half);
    assert(asr(l[1] + l[3] + 1, 1) == p_mid);
    assert(asr(l[6] + l[4] + 1, 1) == q_mid);
    assert(weak_second_delta(l[1] as int, l[2] as int, l[3] as int, delta, tc) == s);
    assert(weak_second_delta(l[6] as int, l[5] as int, l[4] as int, -delta, tc) == u);
}

/// The chroma filter moves the two samples at the edge towards each other by half of their step
/// less an eighth of the step around them, to the nearest and within the threshold.
pub proof fn chroma_filter_closes_the_step(l: Seq<u16>, tc: int, maxv: int, t: int, delta: int)
    requires
        l.len() == 4,
        filter_args(tc, maxv),
        in_range(l, maxv),
        nearest(t, 4 * (l[2] - l[1]) - (l[3] - l[0]), 8),
        nearest_within(delta, t, -tc, tc),
    ensures
        nearest_within(chroma_filtered(l, tc, maxv, 1), l[1] + delta, 0, maxv),
        nearest_within(chroma_filtered(l, tc, maxv, 2), l[2] - delta, 0, maxv),
        chroma_filtered(l, tc, maxv, 0) == l[0],
        chroma_filtered(l, tc, maxv, 3) == l[3],
{
    lemma_p2_values();
}

} // verus!
