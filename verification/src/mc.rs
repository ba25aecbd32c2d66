//! Motion compensation: fractional interpolation of reference blocks into 14-bit intermediates, and
//! the combination of one or two of them into samples.
use vstd::prelude::*;
use crate::arith::{
    abs_int, asr, clip3, clip3_i32, floor_over, lemma_asr_bounds, lemma_asr_exact,
    lemma_asr_is_floor, lemma_asr_nearest, lemma_asr_shrinks, lemma_p2_add, lemma_p2_mono,
    lemma_p2_pos, lemma_p2_values, lemma_row_major, lemma_stride_row, nearest, p2, pow2_i32, pow2_i64,
    shr_i32, shr_i64, weighted_total, wrap16, wrap_i16, wrap_i32, wrap_to_i32,
};

verus! {

pub const LUMA_FILTER: [[i32; 8]; 4] = [
    [0, 0, 0, 64, 0, 0, 0, 0],
    [-1, 4, -10, 58, 17, -5, 1, 0],
    [-1, 4, -11, 40, 40, -11, 4, -1],
    [0, 1, -5, 17, 58, -10, 4, -1],
];

pub const CHROMA_FILTER: [[i32; 4]; 8] = [
    [0, 64, 0, 0],
    [-2, 58, 10, -2],
    [-4, 54, 16, -2],
    [-6, 46, 28, -4],
    [-4, 36, 36, -4],
    [-4, 28, 46, -6],
    [-2, 16, 54, -4],
    [-2, 10, 58, -2],
];

/// A plane of a reference picture. Positions outside it read the nearest sample inside.
pub struct RefPlane<'a> {
    pub data: &'a [u16],
    pub stride: usize,
    pub width: usize,
    pub height: usize,
}

impl<'a> RefPlane<'a> {
    /// The plane is not empty and its last row is there.
    pub open spec fn wf(self) -> bool {
        &&& 1 <= self.width <= isize::MAX
        &&& 1 <= self.height <= isize::MAX
        &&& (self.height - 1) * self.stride + self.width <= self.data.len()
    }

    /// The sample at `(x, y)`, extended beyond the borders.
    pub open spec fn at(self, x: int, y: int) -> int {
        self.data@[clip3(0, self.height - 1, y) * self.stride + clip3(0, self.width - 1, x)] as int
    }

    fn sample(&self, x: isize, y: isize) -> (r: i32)
        requires
            self.wf(),
        ensures
            r == self.at(x as int, y as int),
            0 <= r <= 65535,
    {
        let xc: usize = if x < 0 {
            0
        } else if x as usize > self.width - 1 {
            self.width - 1
        } else {
            x as usize
        };
        let yc: usize = if y < 0 {
            0
        } else if y as usize > self.height - 1 {
            self.height - 1
        } else {
            y as usize
        };
        proof {
            assert(0 <= yc * self.stride <= (self.height - 1) * self.stride) by (nonlinear_arith)
                requires
                    0 <= yc <= self.height - 1,
                    0 <= self.stride,
            ;
        }
        self.data[yc * self.stride + xc] as i32
    }
}

/// The first `k` terms of a filter with coefficients `c` over the samples `s(0), s(1), ...`.
pub open spec fn filter_sum(c: Seq<i32>, s: spec_fn(int) -> int, k: int) -> int
    decreases k,
{
    if k <= 0 {
        0
    } else {
        filter_sum(c, s, k - 1) + c[k - 1] * s(k - 1)
    }
}

/// The whole filter.
pub open spec fn filtered(c: Seq<i32>, s: spec_fn(int) -> int) -> int {
    filter_sum(c, s, c.len() as int)
}

spec fn gain(c: Seq<i32>, k: int) -> int
    decreases k,
{
    if k <= 0 {
        0
    } else {
        gain(c, k - 1) + abs_int(c[k - 1] as int)
    }
}

spec fn tap_total(c: Seq<i32>, k: int) -> int
    decreases k,
{
    if k <= 0 {
        0
    } else {
        tap_total(c, k - 1) + c[k - 1]
    }
}

/// An interpolation filter: 8 or 4 taps of modest total magnitude, summing to 64.
pub open spec fn is_filter(c: Seq<i32>) -> bool {
    &&& c.len() == 8 || c.len() == 4
    &&& exists|i: int| 0 <= i < 4 && c == #[trigger] LUMA_FILTER@[i]@ || exists|i: int|
        0 <= i < 8 && c == #[trigger] CHROMA_FILTER@[i]@
}

proof fn lemma_gain_mono(c: Seq<i32>, j: int, k: int)
    requires
        0 <= j <= k,
    ensures
        0 <= gain(c, j) <= gain(c, k),
    decreases k,
{
    if j < k {
        lemma_gain_mono(c, j, k - 1);
    } else if k > 0 {
        lemma_gain_mono(c, k - 1, k - 1);
    }
}

proof fn lemma_luma_gain(i: int)
    requires
        0 <= i < 4,
    ensures
        gain(LUMA_FILTER@[i]@, 8) <= 112,
        tap_total(LUMA_FILTER@[i]@, 8) == 64,
{
    reveal_with_fuel(gain, 9);
    reveal_with_fuel(tap_total, 9);
    assert(i == 0 || i == 1 || i == 2 || i == 3);
}

proof fn lemma_chroma_gain(i: int)
    requires
        0 <= i < 8,
    ensures
        gain(CHROMA_FILTER@[i]@, 4) <= 112,
        tap_total(CHROMA_FILTER@[i]@, 4) == 64,
{
    reveal_with_fuel(gain, 5);
    reveal_with_fuel(tap_total, 5);
    assert(i == 0 || i == 1 || i == 2 || i == 3 || i == 4 || i == 5 || i == 6 || i == 7);
}

proof fn lemma_filter_gain(c: Seq<i32>)
    requires
        is_filter(c),
    ensures
        gain(c, c.len() as int) <= 112,
        tap_total(c, c.len() as int) == 64,
{
    if exists|i: int| 0 <= i < 4 && c == #[trigger] LUMA_FILTER@[i]@ {
        let i = choose|i: int| 0 <= i < 4 && c == #[trigger] LUMA_FILTER@[i]@;
        lemma_luma_gain(i);
        assert(c.len() == 8);
    } else {
        let i = choose|i: int| 0 <= i < 8 && c == #[trigger] CHROMA_FILTER@[i]@;
        lemma_chroma_gain(i);
        assert(c.len() == 4);
    }
}

proof fn lemma_filter_sum_bound(c: Seq<i32>, s: spec_fn(int) -> int, k: int, b: int)
    requires
        0 <= k <= c.len(),
        0 <= b,
        forall|t: int| 0 <= t < c.len() ==> -b <= #[trigger] s(t) <= b,
    ensures
        -(gain(c, k) * b) <= filter_sum(c, s, k) <= gain(c, k) * b,
    decreases k,
{
    if k > 0 {
        lemma_filter_sum_bound(c, s, k - 1, b);
        let x = s(k - 1);
        let t = c[k - 1] as int;
        let g = gain(c, k - 1);
        assert(-(abs_int(t) * b) <= t * x <= abs_int(t) * b) by (nonlinear_arith)
            requires
                -b <= x <= b,
                0 <= b,
                abs_int(t) == (if t < 0 {
                    -t
                } else {
                    t
                }),
        ;
        assert((g + abs_int(t)) * b == g * b + abs_int(t) * b) by (nonlinear_arith);
    } else {
        assert(0 * b == 0) by (nonlinear_arith);
    }
}

/// Every partial sum of a filter over samples of magnitude `b` stays within `112 * b`.
proof fn lemma_partial_sums(c: Seq<i32>, s: spec_fn(int) -> int, k: int, b: int)
    requires
        is_filter(c),
        0 <= k <= c.len(),
        0 <= b,
        forall|t: int| 0 <= t < c.len() ==> -b <= #[trigger] s(t) <= b,
    ensures
        -(112 * b) <= filter_sum(c, s, k) <= 112 * b,
{
    lemma_filter_sum_bound(c, s, k, b);
    lemma_filter_gain(c);
    lemma_gain_mono(c, k, c.len() as int);
    let g = gain(c, k);
    assert(g * b <= 112 * b) by (nonlinear_arith)
        requires
            0 <= g <= 112,
            0 <= b,
    ;
}

proof fn lemma_filter_sum_const(c: Seq<i32>, s: spec_fn(int) -> int, k: int, v: int)
    requires
        0 <= k <= c.len(),
        forall|t: int| 0 <= t < c.len() ==> #[trigger] s(t) == v,
    ensures
        filter_sum(c, s, k) == tap_total(c, k) * v,
    decreases k,
{
    if k > 0 {
        lemma_filter_sum_const(c, s, k - 1, v);
        let g = tap_total(c, k - 1);
        let t = c[k - 1] as int;
        assert(s(k - 1) == v);
        assert((g + t) * v == g * v + t * v) by (nonlinear_arith);
    } else {
        assert(0 * v == 0) by (nonlinear_arith);
    }
}

/// How a block is interpolated: the filters of both directions, whether each is needed, how many
/// taps lie before the sample, and the shift after the first pass.
#[verifier::ext_equal]
pub struct Interpolation {
    pub hf: Seq<i32>,
    pub vf: Seq<i32>,
    pub horizontal: bool,
    pub vertical: bool,
    pub lead: int,
    pub shift: int,
}

impl Interpolation {
    /// Luma at quarter-sample fraction `(fx, fy)`.
    pub open spec fn luma(fx: int, fy: int, bd: int) -> Self {
        Interpolation {
            hf: LUMA_FILTER@[fx]@,
            vf: LUMA_FILTER@[fy]@,
            horizontal: fx != 0,
            vertical: fy != 0,
            lead: 3,
            shift: bd - 8,
        }
    }

    /// Chroma at eighth-sample fraction `(fx, fy)`.
    pub open spec fn chroma(fx: int, fy: int, bd: int) -> Self {
        Interpolation {
            hf: CHROMA_FILTER@[fx]@,
            vf: CHROMA_FILTER@[fy]@,
            horizontal: fx != 0,
            vertical: fy != 0,
            lead: 1,
            shift: bd - 8,
        }
    }

    /// The horizontal pass at `(x, y)`, before the shift.
    pub open spec fn row_sum(self, r: RefPlane<'_>, x: int, y: int) -> int {
        filtered(self.hf, |t: int| r.at(x - self.lead + t, y))
    }

    /// The vertical pass at `(x, y)` over plain samples, before the shift.
    pub open spec fn column_sum(self, r: RefPlane<'_>, x: int, y: int) -> int {
        filtered(self.vf, |t: int| r.at(x, y - self.lead + t))
    }

    /// The vertical pass over horizontally filtered samples, before the shift.
    pub open spec fn both_sum(self, r: RefPlane<'_>, x: int, y: int) -> int {
        filtered(self.vf, |t: int| asr(self.row_sum(r, x, y - self.lead + t), self.shift))
    }

    /// The intermediate value at `(x, y)`.
    pub open spec fn wide_value(self, r: RefPlane<'_>, x: int, y: int) -> int {
        if !self.horizontal && !self.vertical {
            asr(r.at(x, y) * 64, self.shift)
        } else if !self.vertical {
            asr(self.row_sum(r, x, y), self.shift)
        } else if !self.horizontal {
            asr(self.column_sum(r, x, y), self.shift)
        } else {
            asr(self.both_sum(r, x, y), 6)
        }
    }

    /// The low 16 bits of the intermediate value, which are what is stored.
    pub open spec fn value(self, r: RefPlane<'_>, x: int, y: int) -> int {
        wrap16(self.wide_value(r, x, y))
    }
}

/// The executable form of an interpolation.
struct Interp<'a> {
    hf: &'a [i32],
    vf: &'a [i32],
    horizontal: bool,
    vertical: bool,
    lead: isize,
    shift: u32,
}

impl<'a> Interp<'a> {
    spec fn wf(self) -> bool {
        &&& is_filter(self.hf@)
        &&& is_filter(self.vf@)
        &&& self.hf.len() == self.vf.len()
        &&& self.lead == self.hf.len() / 2 - 1
        &&& self.shift < 32
    }

    spec fn view(self) -> Interpolation {
        Interpolation {
            hf: self.hf@,
            vf: self.vf@,
            horizontal: self.horizontal,
            vertical: self.vertical,
            lead: self.lead as int,
            shift: self.shift as int,
        }
    }

    fn row_sum_at(&self, r: &RefPlane<'_>, x: isize, y: isize) -> (v: i32)
        requires
            self.wf(),
            r.wf(),
            isize::MIN + 4 <= x <= isize::MAX - 8,
        ensures
            v == self.view().row_sum(*r, x as int, y as int),
            -7339920 <= v <= 7339920,
    {
        let ghost s = |t: int| r.at(x - self.lead + t, y as int);
        let mut acc: i32 = 0;
        let taps: usize = self.hf.len();
        for t in 0..taps
            invariant
                self.wf(),
                r.wf(),
                taps == self.hf.len(),
                taps <= 8,
                isize::MIN + 4 <= x <= isize::MAX - 8,
                s == |t: int| r.at(x - self.lead + t, y as int),
                acc == filter_sum(self.hf@, s, t as int),
        {
            proof {
                lemma_partial_sums(self.hf@, s, t as int, 65535);
                lemma_partial_sums(self.hf@, s, t + 1, 65535);
                assert(s(t as int) == r.at(x - self.lead + t, y as int));
            }
            let p: i32 = r.sample(x - self.lead + t as isize, y);
            proof {
                lemma_tap_bound(self.hf@, t as int, p as int, 65535);
            }
            acc = acc + self.hf[t] * p;
        }
        proof {
            lemma_partial_sums(self.hf@, s, taps as int, 65535);
        }
        acc
    }

    fn column_sum_at(&self, r: &RefPlane<'_>, x: isize, y: isize) -> (v: i32)
        requires
            self.wf(),
            r.wf(),
            isize::MIN + 4 <= y <= isize::MAX - 8,
        ensures
            v == self.view().column_sum(*r, x as int, y as int),
            -7339920 <= v <= 7339920,
    {
        let ghost s = |t: int| r.at(x as int, y - self.lead + t);
        let mut acc: i32 = 0;
        let taps: usize = self.vf.len();
        for t in 0..taps
            invariant
                self.wf(),
                r.wf(),
                taps == self.vf.len(),
                taps <= 8,
                isize::MIN + 4 <= y <= isize::MAX - 8,
                s == |t: int| r.at(x as int, y - self.lead + t),
                acc == filter_sum(self.vf@, s, t as int),
        {
            proof {
                lemma_partial_sums(self.vf@, s, t as int, 65535);
                lemma_partial_sums(self.vf@, s, t + 1, 65535);
                assert(s(t as int) == r.at(x as int, y - self.lead + t));
            }
            let p: i32 = r.sample(x, y - self.lead + t as isize);
            proof {
                lemma_tap_bound(self.vf@, t as int, p as int, 65535);
            }
            acc = acc + self.vf[t] * p;
        }
        proof {
            lemma_partial_sums(self.vf@, s, taps as int, 65535);
        }
        acc
    }

    /// The horizontal pass over the rows that the vertical pass of a `w` by `h` block reads: row
    /// `j` of the result lies `lead` rows above row `j` of the block.
    fn row_pass(&self, r: &RefPlane<'_>, x0: isize, y0: isize, w: usize, h: usize) -> (tmp: Vec<i32>)
        requires
            self.wf(),
            r.wf(),
            coords_ok(x0 as int, w as int),
            coords_ok(y0 as int, h as int),
            w > 0,
            w * (h + 8) <= usize::MAX,
        ensures
            tmp.len() == w * (h + self.vf.len() - 1),
            forall|i: int|
                0 <= i < tmp.len() ==> #[trigger] tmp@[i] == asr(
                    self.view().row_sum(*r, x0 + i % w as int, y0 - self.lead + i / w as int),
                    self.shift as int,
                ),
            forall|i: int| 0 <= i < tmp.len() ==> -7339920 <= #[trigger] tmp@[i] <= 7339920,
    {
        let rows: usize = h + (self.vf.len() - 1);
        let mut tmp: Vec<i32> = Vec::new();
        assert(0 * w == 0) by (nonlinear_arith);
        for j in 0..rows
            invariant
                self.wf(),
                r.wf(),
                coords_ok(x0 as int, w as int),
                coords_ok(y0 as int, h as int),
                w > 0,
                rows == h + self.vf.len() - 1,
                tmp.len() == j * w,
                forall|i: int|
                    0 <= i < tmp.len() ==> #[trigger] tmp@[i] == asr(
                        self.view().row_sum(*r, x0 + i % w as int, y0 - self.lead + i / w as int),
                        self.shift as int,
                    ),
                forall|i: int| 0 <= i < tmp.len() ==> -7339920 <= #[trigger] tmp@[i] <= 7339920,
        {
            for x in 0..w
                invariant
                    self.wf(),
                    r.wf(),
                    coords_ok(x0 as int, w as int),
                    coords_ok(y0 as int, h as int),
                    w > 0,
                    rows == h + self.vf.len() - 1,
                    j < rows,
                    tmp.len() == j * w + x,
                    forall|i: int|
                        0 <= i < tmp.len() ==> #[trigger] tmp@[i] == asr(
                            self.view().row_sum(
                                *r,
                                x0 + i % w as int,
                                y0 - self.lead + i / w as int,
                            ),
                            self.shift as int,
                        ),
                    forall|i: int| 0 <= i < tmp.len() ==> -7339920 <= #[trigger] tmp@[i] <= 7339920,
            {
                proof {
                    lemma_row_major(j as int, x as int, w as int, rows as int);
                }
                let sum: i32 = self.row_sum_at(r, x0 + x as isize, y0 - self.lead + j as isize);
                proof {
                    lemma_asr_shrinks(sum as int, self.shift as int);
                }
                tmp.push(shr_i32(sum, self.shift));
            }
            assert(j * w + w == (j + 1) * w) by (nonlinear_arith);
        }
        assert(rows * w == w * (h + self.vf.len() - 1)) by (nonlinear_arith)
            requires
                rows == h + self.vf.len() - 1,
        ;
        tmp
    }

    /// The vertical pass at column `x`, row `y` of a block over its finished horizontal pass.
    fn both_sum_at(
        &self,
        r: &RefPlane<'_>,
        tmp: &Vec<i32>,
        x0: isize,
        y0: isize,
        w: usize,
        h: usize,
        x: usize,
        y: usize,
    ) -> (v: i32)
        requires
            self.wf(),
            r.wf(),
            x < w,
            y < h,
            tmp.len() == w * (h + self.vf.len() - 1),
            forall|i: int|
                0 <= i < tmp.len() ==> #[trigger] tmp@[i] == asr(
                    self.view().row_sum(*r, x0 + i % w as int, y0 - self.lead + i / w as int),
                    self.shift as int,
                ),
            forall|i: int| 0 <= i < tmp.len() ==> -7339920 <= #[trigger] tmp@[i] <= 7339920,
        ensures
            v == self.view().both_sum(*r, x0 + x, y0 + y),
    {
        let ghost s = |t: int|
            asr(self.view().row_sum(*r, x0 + x, y0 + y - self.lead + t), self.shift as int);
        let mut acc: i32 = 0;
        let taps: usize = self.vf.len();
        proof {
            assert forall|t: int| 0 <= t < taps implies -7339920 <= #[trigger] s(t) <= 7339920 by {
                lemma_row_major(y + t, x as int, w as int, h + self.vf.len() - 1);
                assert((h + self.vf.len() - 1) * w == w * (h + self.vf.len() - 1)) by (nonlinear_arith);
                assert(tmp@[(y + t) * w + x] == s(t));
            }
        }
        for t in 0..taps
            invariant
                self.wf(),
                r.wf(),
                x < w,
                y < h,
                taps == self.vf.len(),
                taps <= 8,
                tmp.len() == w * (h + self.vf.len() - 1),
                forall|i: int|
                    0 <= i < tmp.len() ==> #[trigger] tmp@[i] == asr(
                        self.view().row_sum(*r, x0 + i % w as int, y0 - self.lead + i / w as int),
                        self.shift as int,
                    ),
                s == |t: int|
                    asr(self.view().row_sum(*r, x0 + x, y0 + y - self.lead + t), self.shift as int),
                forall|t: int| 0 <= t < taps ==> -7339920 <= #[trigger] s(t) <= 7339920,
                acc == filter_sum(self.vf@, s, t as int),
        {
            proof {
                lemma_row_major(y + t, x as int, w as int, h + self.vf.len() - 1);
                assert((h + self.vf.len() - 1) * w == w * (h + self.vf.len() - 1)) by (nonlinear_arith);
                assert(0 <= (y + t) * w) by (nonlinear_arith);
                lemma_partial_sums(self.vf@, s, t as int, 7339920);
                lemma_partial_sums(self.vf@, s, t + 1, 7339920);
                assert(tmp@[(y + t) * w + x] == s(t as int));
            }
            let p: i32 = tmp[(y + t) * w + x];
            proof {
                lemma_tap_bound(self.vf@, t as int, p as int, 7339920);
            }
            acc = acc + self.vf[t] * p;
        }
        acc
    }

    /// The intermediate value at `(x, y)` where at most one direction is filtered.
    fn one_pass_value(&self, r: &RefPlane<'_>, x: isize, y: isize) -> (v: i16)
        requires
            self.wf(),
            r.wf(),
            !(self.horizontal && self.vertical),
            isize::MIN + 4 <= x <= isize::MAX - 8,
            isize::MIN + 4 <= y <= isize::MAX - 8,
        ensures
            v == self.view().value(*r, x as int, y as int),
    {
        if !self.horizontal && !self.vertical {
            wrap_i16(shr_i32(r.sample(x, y) * 64, self.shift))
        } else if !self.vertical {
            wrap_i16(shr_i32(self.row_sum_at(r, x, y), self.shift))
        } else {
            wrap_i16(shr_i32(self.column_sum_at(r, x, y), self.shift))
        }
    }

    /// Fills `dst[..w * h]` with the block at `(x0, y0)`.
    fn block_into(&self, r: &RefPlane<'_>, x0: isize, y0: isize, w: usize, h: usize, dst: &mut [i16])
        requires
            self.wf(),
            r.wf(),
            coords_ok(x0 as int, w as int),
            coords_ok(y0 as int, h as int),
            w > 0,
            self.horizontal && self.vertical ==> w * (h + 8) <= usize::MAX,
            w * h <= old(dst).len(),
        ensures
            block_of(
                final(dst)@,
                old(dst)@,
                self.view(),
                *r,
                x0 as int,
                y0 as int,
                w as int,
                h as int,
            ),
    {
        let ghost before = dst@;
        let both: bool = self.horizontal && self.vertical;
        let tmp: Vec<i32> = if both {
            self.row_pass(r, x0, y0, w, h)
        } else {
            Vec::new()
        };
        assert(0 * w == 0) by (nonlinear_arith);
        for y in 0..h
            invariant
                self.wf(),
                r.wf(),
                coords_ok(x0 as int, w as int),
                coords_ok(y0 as int, h as int),
                w > 0,
                both == (self.horizontal && self.vertical),
                both ==> tmp.len() == w * (h + self.vf.len() - 1),
                both ==> forall|i: int|
                    0 <= i < tmp.len() ==> #[trigger] tmp@[i] == asr(
                        self.view().row_sum(*r, x0 + i % w as int, y0 - self.lead + i / w as int),
                        self.shift as int,
                    ),
                both ==> forall|i: int|
                    0 <= i < tmp.len() ==> -7339920 <= #[trigger] tmp@[i] <= 7339920,
                w * h <= before.len(),
                dst.len() == before.len(),
                forall|i: int|
                    0 <= i < y * w ==> #[trigger] dst@[i] == self.view().value(
                        *r,
                        x0 + i % w as int,
                        y0 + i / w as int,
                    ),
                forall|i: int| y * w <= i < dst.len() ==> #[trigger] dst@[i] == before[i],
        {
            proof {
                assert(y * w + w <= w * h) by (nonlinear_arith)
                    requires
                        y < h,
                ;
                assert(0 <= y * w) by (nonlinear_arith);
            }
            for x in 0..w
                invariant
                    self.wf(),
                    r.wf(),
                    coords_ok(x0 as int, w as int),
                    coords_ok(y0 as int, h as int),
                    y < h,
                    y * w + w <= w * h,
                    0 <= y * w,
                    both == (self.horizontal && self.vertical),
                    both ==> tmp.len() == w * (h + self.vf.len() - 1),
                    both ==> forall|i: int|
                        0 <= i < tmp.len() ==> #[trigger] tmp@[i] == asr(
                            self.view().row_sum(
                                *r,
                                x0 + i % w as int,
                                y0 - self.lead + i / w as int,
                            ),
                            self.shift as int,
                        ),
                    both ==> forall|i: int|
                        0 <= i < tmp.len() ==> -7339920 <= #[trigger] tmp@[i] <= 7339920,
                    w * h <= before.len(),
                    dst.len() == before.len(),
                    forall|i: int|
                        0 <= i < y * w + x ==> #[trigger] dst@[i] == self.view().value(
                            *r,
                            x0 + i % w as int,
                            y0 + i / w as int,
                        ),
                    forall|i: int| y * w + x <= i < dst.len() ==> #[trigger] dst@[i] == before[i],
            {
                proof {
                    lemma_row_major(y as int, x as int, w as int, h as int);
                }
                let v: i16 = if both {
                    wrap_i16(shr_i32(self.both_sum_at(r, &tmp, x0, y0, w, h, x, y), 6))
                } else {
                    self.one_pass_value(r, x0 + x as isize, y0 + y as isize)
                };
                dst[y * w + x] = v;
            }
            assert(y * w + w == (y + 1) * w) by (nonlinear_arith);
        }
        assert(h * w == w * h) by (nonlinear_arith);
    }
}

proof fn lemma_tap_bound(c: Seq<i32>, t: int, p: int, b: int)
    requires
        is_filter(c),
        0 <= t < c.len(),
        -b <= p <= b,
        0 <= b,
    ensures
        -(112 * b) <= c[t] * p <= 112 * b,
{
    lemma_filter_gain(c);
    lemma_gain_mono(c, t + 1, c.len() as int);
    lemma_gain_mono(c, t, t);
    let k = c[t] as int;
    assert(abs_int(k) <= 112);
    assert(-(112 * b) <= k * p <= 112 * b) by (nonlinear_arith)
        requires
            -112 <= k <= 112,
            -b <= p <= b,
    ;
}

/// A block of extent `len` at `start`, with room for the filter taps, stays in coordinate range.
pub open spec fn coords_ok(start: int, len: int) -> bool {
    isize::MIN + 4 <= start && start + len <= isize::MAX - 8 && len <= isize::MAX - 8
}

/// The first `w * h` places of `out` hold the interpolated block at `(x0, y0)`, row by row; the
/// rest is as in `before`.
pub open spec fn block_of(
    out: Seq<i16>,
    before: Seq<i16>,
    f: Interpolation,
    r: RefPlane<'_>,
    x0: int,
    y0: int,
    w: int,
    h: int,
) -> bool {
    &&& out.len() == before.len()
    &&& forall|i: int| 0 <= i < w * h ==> #[trigger] out[i] == f.value(r, x0 + i % w, y0 + i / w)
    &&& forall|i: int| w * h <= i < out.len() ==> #[trigger] out[i] == before[i]
}

/// Luma interpolation of a `w` by `h` block at `(x0, y0)` plus the quarter-sample fraction
/// `(fx, fy)`, first along rows, then along columns.
pub fn luma_interp(
    r: &RefPlane<'_>,
    x0: isize,
    y0: isize,
    fx: usize,
    fy: usize,
    w: usize,
    h: usize,
    bd: u8,
    dst: &mut [i16],
)
    requires
        r.wf(),
        fx < 4,
        fy < 4,
        8 <= bd < 40,
        coords_ok(x0 as int, w as int),
        coords_ok(y0 as int, h as int),
        w > 0,
        fx != 0 && fy != 0 ==> w * (h + 8) <= usize::MAX,
        w * h <= old(dst).len(),
    ensures
        block_of(
            final(dst)@,
            old(dst)@,
            Interpolation::luma(fx as int, fy as int, bd as int),
            *r,
            x0 as int,
            y0 as int,
            w as int,
            h as int,
        ),
{
    let hf: [i32; 8] = LUMA_FILTER[fx];
    let vf: [i32; 8] = LUMA_FILTER[fy];
    let f: Interp<'_> = Interp {
        hf: hf.as_slice(),
        vf: vf.as_slice(),
        horizontal: fx != 0,
        vertical: fy != 0,
        lead: 3,
        shift: (bd - 8) as u32,
    };
    proof {
        assert(f.view() =~= Interpolation::luma(fx as int, fy as int, bd as int));
    }
    f.block_into(r, x0, y0, w, h, dst);
}

/// Chroma interpolation of a `w` by `h` block at `(x0, y0)` plus the eighth-sample fraction
/// `(fx, fy)`.
pub fn chroma_interp(
    r: &RefPlane<'_>,
    x0: isize,
    y0: isize,
    fx: usize,
    fy: usize,
    w: usize,
    h: usize,
    bd: u8,
    dst: &mut [i16],
)
    requires
        r.wf(),
        fx < 8,
        fy < 8,
        8 <= bd < 40,
        coords_ok(x0 as int, w as int),
        coords_ok(y0 as int, h as int),
        w > 0,
        fx != 0 && fy != 0 ==> w * (h + 8) <= usize::MAX,
        w * h <= old(dst).len(),
    ensures
        block_of(
            final(dst)@,
            old(dst)@,
            Interpolation::chroma(fx as int, fy as int, bd as int),
            *r,
            x0 as int,
            y0 as int,
            w as int,
            h as int,
        ),
{
    let hf: [i32; 4] = CHROMA_FILTER[fx];
    let vf: [i32; 4] = CHROMA_FILTER[fy];
    let f: Interp<'_> = Interp {
        hf: hf.as_slice(),
        vf: vf.as_slice(),
        horizontal: fx != 0,
        vertical: fy != 0,
        lead: 1,
        shift: (bd - 8) as u32,
    };
    proof {
        assert(f.view() =~= Interpolation::chroma(fx as int, fy as int, bd as int));
    }
    f.block_into(r, x0, y0, w, h, dst);
}

/// How intermediates become samples.
#[derive(Clone, Copy, PartialEq, Eq, Structural)]
pub enum Blend {
    /// One prediction, rounded to the sample depth.
    Uni,
    /// The rounded mean of two predictions.
    Bi,
    /// One prediction with a weight over `2^log2_denom` and an offset in 8-bit units.
    UniWeighted { weight: i32, offset: i32, log2_denom: u8 },
    /// Two predictions with a weight and an offset each.
    BiWeighted { w0: i32, o0: i32, w1: i32, o1: i32, log2_denom: u8 },
}

pub open spec fn half(k: int) -> int {
    if k >= 1 {
        p2(k - 1)
    } else {
        0
    }
}

impl Blend {
    /// The value for intermediates `a` and `b` before clipping to the sample range.
    pub open spec fn wide(self, a: int, b: int, bd: int) -> int {
        match self {
            Blend::Uni => asr(a + half(14 - bd), 14 - bd),
            Blend::Bi => asr(a + b + p2(14 - bd), 15 - bd),
            Blend::UniWeighted { weight, offset, log2_denom } => asr(
                a * weight + half(log2_denom + 14 - bd),
                log2_denom + 14 - bd,
            ) + scaled(offset as int, bd),
            Blend::BiWeighted { w0, o0, w1, o1, log2_denom } => wrap_i32(
                asr(
                    a * w0 + b * w1 + (scaled(o0 as int, bd) + scaled(o1 as int, bd) + 1) * p2(
                        log2_denom + 14 - bd,
                    ),
                    log2_denom + 15 - bd,
                ),
            ),
        }
    }

    /// The sample for intermediates `a` and `b`.
    pub open spec fn value(self, a: int, b: int, bd: int) -> int {
        clip3(0, p2(bd) - 1, self.wide(a, b, bd))
    }

    /// The parameters keep the arithmetic in range, whatever the intermediates are.
    pub open spec fn wf(self, bd: int) -> bool {
        match self {
            Blend::Uni => bd <= 14,
            Blend::Bi => bd <= 14,
            Blend::UniWeighted { weight, offset, log2_denom } => {
                &&& 8 <= bd <= 14
                &&& log2_denom + 14 - bd <= 30
            },
            Blend::BiWeighted { w0, o0, w1, o1, log2_denom } => {
                &&& 8 <= bd <= 14
                &&& i32::MIN <= scaled(o0 as int, bd) + scaled(o1 as int, bd) < i32::MAX
                &&& log2_denom + 14 - bd <= 30
            },
        }
    }

    /// The intermediates keep the arithmetic in range. Only one weighted prediction is computed in
    /// 32 bits.
    pub open spec fn fits(self, a: int, b: int, bd: int) -> bool {
        match self {
            Blend::UniWeighted { weight, offset, log2_denom } => {
                &&& i32::MIN <= a * weight
                &&& a * weight + half(log2_denom + 14 - bd) <= i32::MAX
                &&& i32::MIN <= self.wide(a, b, bd) <= i32::MAX
            },
            _ => true,
        }
    }
}

/// An offset in 8-bit units at the sample depth, in 32 bits.
pub open spec fn scaled(o: int, bd: int) -> int {
    wrap_i32(o * p2(bd - 8))
}

fn half_of(k: u32) -> (r: i32)
    requires
        k <= 30,
    ensures
        r == half(k as int),
        0 <= r <= 536870912,
{
    if k >= 1 {
        proof {
            lemma_p2_mono(k - 1, 29);
            lemma_p2_pos(k - 1);
            lemma_p2_values();
        }
        pow2_i32(k - 1)
    } else {
        0
    }
}

/// An offset in 8-bit units scaled to the sample depth.
fn scale_offset(o: i32, bd: u8) -> (r: i32)
    requires
        8 <= bd <= 14,
    ensures
        r == scaled(o as int, bd as int),
{
    proof {
        lemma_p2_mono(bd - 8, 6);
        lemma_p2_pos(bd - 8);
        lemma_p2_values();
        let k = p2(bd - 8);
        assert(-137438953472 <= o * k <= 137438953472) by (nonlinear_arith)
            requires
                -2147483648 <= o <= 2147483647,
                1 <= k <= 64,
        ;
    }
    wrap_to_i32(o as i64 * pow2_i64((bd - 8) as u32))
}

/// One sample.
fn blend_sample(blend: Blend, a: i16, b: i16, bd: u8) -> (r: u16)
    requires
        blend.wf(bd as int),
        blend.fits(a as int, b as int, bd as int),
    ensures
        r == blend.value(a as int, b as int, bd as int),
{
    proof {
        lemma_p2_values();
        lemma_p2_mono(bd as int, 14);
        lemma_p2_pos(bd as int);
    }
    let max: i32 = pow2_i32(bd as u32) - 1;
    let v: i32 = match blend {
        Blend::Uni => shr_i32(a as i32 + half_of(14 - bd as u32), 14 - bd as u32),
        Blend::Bi => {
            proof {
                lemma_p2_mono(14 - bd, 14);
            }
            shr_i32(a as i32 + b as i32 + pow2_i32(14 - bd as u32), 15 - bd as u32)
        },
        Blend::UniWeighted { weight, offset, log2_denom } => {
            let wd: u32 = log2_denom as u32 + 14 - bd as u32;
            let rnd: i32 = half_of(wd);
            let weighted: i32 = shr_i32(a as i32 * weight + rnd, wd);
            weighted + scale_offset(offset, bd)
        },
        Blend::BiWeighted { w0, o0, w1, o1, log2_denom } => {
            let wd: u32 = log2_denom as u32 + 14 - bd as u32;
            let o: i32 = scale_offset(o0, bd) + scale_offset(o1, bd) + 1;
            let k: i64 = pow2_i64(wd);
            proof {
                lemma_product_48(a as int, w0 as int);
                lemma_product_48(b as int, w1 as int);
                lemma_p2_mono(wd as int, 30);
                lemma_p2_pos(wd as int);
                assert(-0x2000_0000_0000_0000 <= o * k <= 0x2000_0000_0000_0000)
                    by (nonlinear_arith)
                    requires
                        -2147483648 <= o <= 2147483647,
                        1 <= k <= 1073741824,
                ;
            }
            let sum: i64 = a as i64 * w0 as i64 + b as i64 * w1 as i64 + o as i64 * k;
            proof {
                lemma_asr_shrinks(sum as int, wd + 1);
            }
            wrap_to_i32(shr_i64(sum, wd + 1))
        },
    };
    clip3_i32(0, max, v) as u16
}

proof fn lemma_product_48(a: int, w: int)
    requires
        -32768 <= a <= 32767,
        i32::MIN <= w <= i32::MAX,
    ensures
        -0x4000_0000_0000 <= a * w <= 0x4000_0000_0000,
{
    assert(-0x4000_0000_0000 <= a * w <= 0x4000_0000_0000) by (nonlinear_arith)
        requires
            -32768 <= a <= 32767,
            -2147483648 <= w <= 2147483647,
    ;
}

/// Index `j` of a picture with row distance `stride` belongs to the block: its row is whole and
/// among the first `h`, and it is among the first `w` of the row.
pub open spec fn blend_covers(j: int, stride: int, len: int, w: int, h: int) -> bool {
    j / stride < h && (j / stride + 1) * stride <= len && j % stride < w
}

/// `out` holds the blended block where it covers it, and is otherwise as in `before`.
pub open spec fn blended(
    out: Seq<u16>,
    before: Seq<u16>,
    blend: Blend,
    s0: Seq<i16>,
    s1: Seq<i16>,
    w: int,
    h: int,
    bd: int,
    stride: int,
) -> bool {
    &&& out.len() == before.len()
    &&& forall|j: int|
        0 <= j < out.len() ==> #[trigger] out[j] == (if blend_covers(
            j,
            stride,
            out.len() as int,
            w,
            h,
        ) {
            blend.value(
                s0[(j / stride) * w + j % stride] as int,
                s1[(j / stride) * w + j % stride] as int,
                bd,
            )
        } else {
            before[j] as int
        })
}

/// Writes the blended block row by row.
fn blend_into(
    blend: Blend,
    s0: &[i16],
    s1: &[i16],
    w: usize,
    h: usize,
    bd: u8,
    dst: &mut [u16],
    dst_stride: usize,
)
    requires
        blend.wf(bd as int),
        w > 0,
        dst_stride > 0,
        w * h <= s0.len(),
        w * h <= s1.len(),
        forall|i: int|
            0 <= i < w * h ==> blend.fits(
                #[trigger] s0@[i] as int,
                s1@[i] as int,
                bd as int,
            ),
    ensures
        blended(
            final(dst)@,
            old(dst)@,
            blend,
            s0@,
            s1@,
            w as int,
            h as int,
            bd as int,
            dst_stride as int,
        ),
{
    let ghost before = dst@;
    let len: usize = dst.len();
    let cols: usize = if w < dst_stride {
        w
    } else {
        dst_stride
    };
    let mut y: usize = 0;
    let mut start: usize = 0;
    assert(0 * dst_stride == 0) by (nonlinear_arith);
    proof {
        assert forall|j: int| 0 <= j < len implies #[trigger] (j / dst_stride as int) >= 0 by {
            lemma_stride_row(j, dst_stride as int, 0);
        }
    }
    while y < h && dst_stride <= len - start
        invariant
            blend.wf(bd as int),
            w > 0,
            dst_stride > 0,
            w * h <= s0.len(),
            w * h <= s1.len(),
            forall|i: int|
                0 <= i < w * h ==> blend.fits(
                    #[trigger] s0@[i] as int,
                    s1@[i] as int,
                    bd as int,
                ),
            cols <= w,
            cols <= dst_stride,
            cols == w || cols == dst_stride,
            y <= h,
            start == y * dst_stride,
            start <= len,
            len == before.len(),
            dst.len() == len,
            before == old(dst)@,
            forall|j: int|
                0 <= j < len ==> #[trigger] dst@[j] == (if j / (dst_stride as int) < y && j % (
                dst_stride as int) < w {
                    blend.value(
                        s0@[(j / dst_stride as int) * w + j % dst_stride as int] as int,
                        s1@[(j / dst_stride as int) * w + j % dst_stride as int] as int,
                        bd as int,
                    )
                } else {
                    before[j] as int
                }),
        decreases h - y,
    {
        let ghost row_before = dst@;
        for x in 0..cols
            invariant
                blend.wf(bd as int),
                w > 0,
                cols <= w,
                cols <= dst_stride,
                y < h,
                w * h <= s0.len(),
                w * h <= s1.len(),
                forall|i: int|
                    0 <= i < w * h ==> blend.fits(
                        #[trigger] s0@[i] as int,
                        s1@[i] as int,
                        bd as int,
                    ),
                start + dst_stride <= len,
                dst.len() == len,
                row_before.len() == len,
                forall|j: int|
                    0 <= j < len ==> #[trigger] dst@[j] == (if start <= j < start + x {
                        blend.value(
                            s0@[y * w + (j - start)] as int,
                            s1@[y * w + (j - start)] as int,
                            bd as int,
                        )
                    } else {
                        row_before[j] as int
                    }),
        {
            proof {
                lemma_row_major(y as int, x as int, w as int, h as int);
                assert(h * w == w * h) by (nonlinear_arith);
                assert(0 <= y * w) by (nonlinear_arith);
            }
            let i: usize = y * w + x;
            dst[start + x] = blend_sample(blend, s0[i], s1[i], bd);
        }
        proof {
            assert forall|j: int| 0 <= j < len implies #[trigger] dst@[j] == (if j / (
            dst_stride as int) < y + 1 && j % (dst_stride as int) < w {
                blend.value(
                    s0@[(j / dst_stride as int) * w + j % dst_stride as int] as int,
                    s1@[(j / dst_stride as int) * w + j % dst_stride as int] as int,
                    bd as int,
                )
            } else {
                before[j] as int
            }) by {
                assert(row_before[j] == row_before[j]);
                lemma_stride_row(j, dst_stride as int, y as int);
            }
            assert(y * dst_stride + dst_stride == (y + 1) * dst_stride) by (nonlinear_arith);
        }
        y = y + 1;
        start = start + dst_stride;
    }
    proof {
        assert forall|j: int| 0 <= j < len implies (blend_covers(
            j,
            dst_stride as int,
            len as int,
            w as int,
            h as int,
        ) <==> (#[trigger] (j / dst_stride as int) < y && j % (dst_stride as int) < w)) by {
            let q = j / dst_stride as int;
            lemma_stride_row(j, dst_stride as int, q);
            if q >= y {
                assert((q + 1) * dst_stride >= (y + 1) * dst_stride) by (nonlinear_arith)
                    requires
                        q >= y,
                        dst_stride > 0,
                ;
                assert((y + 1) * dst_stride == y * dst_stride + dst_stride) by (nonlinear_arith);
            } else {
                assert((q + 1) * dst_stride <= y * dst_stride) by (nonlinear_arith)
                    requires
                        q + 1 <= y,
                        dst_stride > 0,
                ;
            }
        }
        assert forall|j: int| 0 <= j < len implies #[trigger] dst@[j] == (if blend_covers(
            j,
            dst_stride as int,
            len as int,
            w as int,
            h as int,
        ) {
            blend.value(
                s0@[(j / dst_stride as int) * w + j % dst_stride as int] as int,
                s1@[(j / dst_stride as int) * w + j % dst_stride as int] as int,
                bd as int,
            )
        } else {
            before[j] as int
        }) by {
            let q = j / dst_stride as int;
        }
    }
}

/// Rounds one prediction to samples.
pub fn uni_pred(src: &[i16], w: usize, h: usize, bd: u8, dst: &mut [u16], dst_stride: usize)
    requires
        bd <= 14,
        0 < w <= dst_stride,
        dst_stride * h <= old(dst).len(),
        w * h <= src.len(),
    ensures
        blended(
            final(dst)@,
            old(dst)@,
            Blend::Uni,
            src@,
            src@,
            w as int,
            h as int,
            bd as int,
            dst_stride as int,
        ),
{
    blend_into(Blend::Uni, src, src, w, h, bd, dst, dst_stride);
}

/// Averages two predictions into samples.
pub fn bi_pred(
    s0: &[i16],
    s1: &[i16],
    w: usize,
    h: usize,
    bd: u8,
    dst: &mut [u16],
    dst_stride: usize,
)
    requires
        bd <= 14,
        0 < w <= dst_stride,
        dst_stride * h <= old(dst).len(),
        w * h <= s0.len(),
        w * h <= s1.len(),
    ensures
        blended(
            final(dst)@,
            old(dst)@,
            Blend::Bi,
            s0@,
            s1@,
            w as int,
            h as int,
            bd as int,
            dst_stride as int,
        ),
{
    blend_into(Blend::Bi, s0, s1, w, h, bd, dst, dst_stride);
}

/// Explicit weighted prediction from one block.
pub fn uni_pred_weighted(
    src: &[i16],
    w: usize,
    h: usize,
    bd: u8,
    weight: i32,
    offset: i32,
    log2_denom: u8,
    dst: &mut [u16],
    dst_stride: usize,
)
    requires
        (Blend::UniWeighted { weight, offset, log2_denom }).wf(bd as int),
        w > 0,
        dst_stride > 0,
        w * h <= src.len(),
        forall|i: int|
            0 <= i < w * h ==> (Blend::UniWeighted { weight, offset, log2_denom }).fits(
                #[trigger] src@[i] as int,
                src@[i] as int,
                bd as int,
            ),
    ensures
        blended(
            final(dst)@,
            old(dst)@,
            (Blend::UniWeighted { weight, offset, log2_denom }),
            src@,
            src@,
            w as int,
            h as int,
            bd as int,
            dst_stride as int,
        ),
{
    let blend: Blend = Blend::UniWeighted { weight, offset, log2_denom };
    blend_into(blend, src, src, w, h, bd, dst, dst_stride);
}

/// Explicit weighted prediction from two blocks.
pub fn bi_pred_weighted(
    s0: &[i16],
    s1: &[i16],
    w: usize,
    h: usize,
    bd: u8,
    w0: i32,
    o0: i32,
    w1: i32,
    o1: i32,
    log2_denom: u8,
    dst: &mut [u16],
    dst_stride: usize,
)
    requires
        (Blend::BiWeighted { w0, o0, w1, o1, log2_denom }).wf(bd as int),
        w > 0,
        dst_stride > 0,
        w * h <= s0.len(),
        w * h <= s1.len(),
    ensures
        blended(
            final(dst)@,
            old(dst)@,
            (Blend::BiWeighted { w0, o0, w1, o1, log2_denom }),
            s0@,
            s1@,
            w as int,
            h as int,
            bd as int,
            dst_stride as int,
        ),
{
    let blend: Blend = Blend::BiWeighted { w0, o0, w1, o1, log2_denom };
    blend_into(blend, s0, s1, w, h, bd, dst, dst_stride);
}

/// The intermediate of a whole-sample position.
proof fn lemma_full_sample(v: int, bd: int)
    requires
        8 <= bd <= 14,
        0 <= v < p2(bd),
    ensures
        asr(v * 64, bd - 8) == v * p2(14 - bd),
        0 <= v * p2(14 - bd) < 16384,
{
    lemma_p2_add(14 - bd, bd - 8);
    lemma_p2_add(14 - bd, bd);
    lemma_p2_values();
    let a = p2(14 - bd);
    let b = p2(bd - 8);
    let c = p2(bd);
    lemma_p2_pos(14 - bd);
    assert(v * 64 == (v * a) * b) by (nonlinear_arith)
        requires
            a * b == 64,
    ;
    lemma_asr_exact(v * a, bd - 8);
    assert(0 <= v * a < 16384) by (nonlinear_arith)
        requires
            a * c == 16384,
            0 <= v < c,
            a >= 1,
    ;
}

/// Rounding the exact intermediate of a sample gives the sample back.
proof fn lemma_uni_round_trip(v: int, bd: int)
    requires
        8 <= bd <= 14,
        0 <= v < p2(bd),
    ensures
        Blend::Uni.value(v * p2(14 - bd), v * p2(14 - bd), bd) == v,
{
    let k = 14 - bd;
    let d = p2(k);
    lemma_p2_pos(k);
    assert(0 <= half(k) < d) by {
        if k >= 1 {
            lemma_p2_pos(k - 1);
        }
    }
    assert(v * d <= v * d + half(k) < (v + 1) * d) by (nonlinear_arith)
        requires
            0 <= half(k) < d,
    ;
    lemma_asr_bounds(v * d + half(k), k, v, v + 1);
}

/// Interpolation at a whole-sample position followed by uni-prediction reproduces the reference.
pub proof fn whole_sample_prediction_copies(
    f: Interpolation,
    r: RefPlane<'_>,
    x: int,
    y: int,
    bd: int,
)
    requires
        8 <= bd <= 14,
        !f.horizontal,
        !f.vertical,
        f.shift == bd - 8,
        0 <= r.at(x, y) < p2(bd),
    ensures
        Blend::Uni.value(f.value(r, x, y), f.value(r, x, y), bd) == r.at(x, y),
{
    lemma_full_sample(r.at(x, y), bd);
    lemma_uni_round_trip(r.at(x, y), bd);
}

/// A block interpolated at a whole-sample position and predicted from alone is the block of the
/// reference, extended beyond its borders; nothing else of the picture changes.
pub proof fn whole_sample_blocks_are_copied(
    r: RefPlane<'_>,
    x0: int,
    y0: int,
    w: int,
    h: int,
    bd: int,
    mid_before: Seq<i16>,
    mid: Seq<i16>,
    before: Seq<u16>,
    dst: Seq<u16>,
    stride: int,
)
    requires
        r.wf(),
        8 <= bd <= 14,
        forall|i: int| 0 <= i < r.data.len() ==> #[trigger] r.data@[i] < p2(bd),
        0 < w <= stride,
        0 <= h,
        stride * h <= before.len(),
        block_of(mid, mid_before, Interpolation::luma(0, 0, bd), r, x0, y0, w, h),
        blended(dst, before, Blend::Uni, mid, mid, w, h, bd, stride),
    ensures
        dst.len() == before.len(),
        forall|j: int|
            0 <= j < dst.len() ==> #[trigger] dst[j] == (if j / stride < h && j % stride < w {
                r.at(x0 + j % stride, y0 + j / stride)
            } else {
                before[j] as int
            }),
{
    let f = Interpolation::luma(0, 0, bd);
    assert forall|j: int| 0 <= j < dst.len() implies #[trigger] dst[j] == (if j / stride < h && j
        % stride < w {
        r.at(x0 + j % stride, y0 + j / stride)
    } else {
        before[j] as int
    }) by {
        let (x, y) = (j % stride, j / stride);
        lemma_stride_row(j, stride, y);
        if y < h && x < w {
            assert((y + 1) * stride <= stride * h) by (nonlinear_arith)
                requires
                    y + 1 <= h,
                    0 <= stride,
            ;
            assert(blend_covers(j, stride, dst.len() as int, w, h));
            let i = y * w + x;
            lemma_row_major(y, x, w, h);
            assert(0 <= y * w && w * h == h * w) by (nonlinear_arith)
                requires
                    0 <= y,
                    0 <= w,
            ;
            lemma_stride_row(i, w, y);
            assert(mid[i] == f.value(r, x0 + x, y0 + y));
            lemma_at_inside(r, x0 + x, y0 + y);
            whole_sample_prediction_copies(f, r, x0 + x, y0 + y, bd);
        }
    }
}

/// Extended or not, every sample of a plane is one of its samples.
proof fn lemma_at_inside(r: RefPlane<'_>, x: int, y: int)
    requires
        r.wf(),
    ensures
        exists|i: int| 0 <= i < r.data.len() && r.at(x, y) == #[trigger] r.data@[i],
{
    let yc = clip3(0, r.height - 1, y);
    let xc = clip3(0, r.width - 1, x);
    assert(0 <= yc * r.stride <= (r.height - 1) * r.stride) by (nonlinear_arith)
        requires
            0 <= yc <= r.height - 1,
            0 <= r.stride,
    ;
    let i = yc * r.stride + xc;
    assert(0 <= i < r.data.len() && r.at(x, y) == r.data@[i]);
}

/// On a plane of one value, every fractional position has the same intermediate and predicts that
/// value.
pub proof fn flat_reference_predicts_flat(
    f: Interpolation,
    r: RefPlane<'_>,
    x: int,
    y: int,
    v: int,
    bd: int,
)
    requires
        8 <= bd <= 14,
        is_filter(f.hf),
        is_filter(f.vf),
        f.shift == bd - 8,
        0 <= v < p2(bd),
        forall|a: int, b: int| #[trigger] r.at(a, b) == v,
    ensures
        f.value(r, x, y) == asr(64 * v, bd - 8),
        Blend::Uni.value(f.value(r, x, y), f.value(r, x, y), bd) == v,
{
    lemma_filter_gain(f.hf);
    lemma_filter_gain(f.vf);
    lemma_full_sample(v, bd);
    lemma_uni_round_trip(v, bd);
    let q = v * p2(14 - bd);
    assert forall|b: int| #[trigger] f.row_sum(r, x, b) == 64 * v by {
        lemma_filter_sum_const(
            f.hf,
            |t: int| r.at(x - f.lead + t, b),
            f.hf.len() as int,
            v,
        );
    }
    lemma_filter_sum_const(f.vf, |t: int| r.at(x, y - f.lead + t), f.vf.len() as int, v);
    let s = |t: int| asr(f.row_sum(r, x, y - f.lead + t), f.shift);
    assert forall|t: int| 0 <= t < f.vf.len() implies #[trigger] s(t) == q by {
        assert(f.row_sum(r, x, y - f.lead + t) == 64 * v);
    }
    lemma_filter_sum_const(f.vf, s, f.vf.len() as int, q);
    lemma_p2_values();
    lemma_asr_exact(q, 6);
    assert(f.both_sum(r, x, y) == 64 * q);
    assert(64 * q == q * p2(6)) by (nonlinear_arith)
        requires
            p2(6) == 64,
    ;
}

/// A plane of one value is interpolated to blocks of one value, at every fraction and beyond its
/// borders. What lies behind the block stays.
pub proof fn flat_planes_interpolate_flat(
    f: Interpolation,
    fx: int,
    fy: int,
    r: RefPlane<'_>,
    x0: int,
    y0: int,
    w: int,
    h: int,
    c: int,
    bd: int,
    before: Seq<i16>,
    out: Seq<i16>,
)
    requires
        r.wf(),
        8 <= bd <= 14,
        0 <= c < p2(bd),
        forall|i: int| 0 <= i < r.data.len() ==> #[trigger] r.data@[i] == c,
        0 <= fx && 0 <= fy,
        (f == Interpolation::luma(fx, fy, bd) && fx < 4 && fy < 4) || (f == Interpolation::chroma(
            fx,
            fy,
            bd,
        ) && fx < 8 && fy < 8),
        block_of(out, before, f, r, x0, y0, w, h),
    ensures
        out.len() == before.len(),
        forall|i: int| 0 <= i < w * h ==> #[trigger] out[i] == asr(64 * c, bd - 8),
        forall|i: int| w * h <= i < out.len() ==> #[trigger] out[i] == before[i],
{
    assert forall|a: int, b: int| #[trigger] r.at(a, b) == c by {
        lemma_at_inside(r, a, b);
    }
    if f == Interpolation::luma(fx, fy, bd) && fx < 4 && fy < 4 {
        lemma_luma_gain(fx);
        lemma_luma_gain(fy);
        assert(f.hf == LUMA_FILTER@[fx]@ && f.vf == LUMA_FILTER@[fy]@);
    } else {
        lemma_chroma_gain(fx);
        lemma_chroma_gain(fy);
        assert(f.hf == CHROMA_FILTER@[fx]@ && f.vf == CHROMA_FILTER@[fy]@);
    }
    assert(is_filter(f.hf) && is_filter(f.vf));
    assert forall|i: int| 0 <= i < w * h implies #[trigger] out[i] == asr(64 * c, bd - 8) by {
        flat_reference_predicts_flat(f, r, x0 + i % w, y0 + i / w, c, bd);
    }
}

/// Averaging a prediction with itself is predicting from it alone, and the order of the two
/// predictions does not matter.
pub proof fn bi_of_equal_is_uni(a: int, b: int, bd: int)
    requires
        bd <= 14,
    ensures
        Blend::Bi.value(a, a, bd) == Blend::Uni.value(a, a, bd),
        Blend::Bi.value(a, b, bd) == Blend::Bi.value(b, a, bd),
{
    let k = 14 - bd;
    lemma_double_shift(a, k);
}

proof fn lemma_double_shift(a: int, k: int)
    requires
        0 <= k,
    ensures
        asr(2 * a + p2(k), k + 1) == asr(a + half(k), k),
{
    let d = p2(k);
    lemma_p2_pos(k);
    let x = a + half(k);
    let q = asr(x, k);
    vstd::arithmetic::div_mod::lemma_fundamental_div_mod(x, d);
    assert(p2(k + 1) == 2 * d);
    if k == 0 {
        assert(d == 1);
        lemma_asr_bounds(2 * a + 1, 1, a, a + 1);
        assert(asr(a, 0) == a);
    } else {
        assert(2 * half(k) == d);
        assert(q * (2 * d) <= 2 * a + d < (q + 1) * (2 * d)) by (nonlinear_arith)
            requires
                x == d * q + x % d,
                0 <= x % d < d,
                2 * x == 2 * a + d,
        ;
        lemma_asr_bounds(2 * a + d, k + 1, q, q + 1);
    }
}

/// A weight equal to the denominator with no offset is plain uni-prediction.
pub proof fn neutral_weight_is_uni(a: int, weight: i32, log2_denom: u8, bd: int)
    requires
        8 <= bd <= 13,
        weight == p2(log2_denom as int),
    ensures
        (Blend::UniWeighted { weight, offset: 0, log2_denom }).value(a, a, bd)
            == Blend::Uni.value(a, a, bd),
{
    let k = 14 - bd;
    let n = log2_denom as int;
    let w = p2(n);
    let d = p2(k);
    let h = p2(k - 1);
    lemma_p2_pos(n);
    lemma_p2_pos(k);
    lemma_p2_add(n, k);
    lemma_p2_add(n, k - 1);
    let x = a + h;
    let q = asr(x, k);
    vstd::arithmetic::div_mod::lemma_fundamental_div_mod(x, d);
    assert(a * w + w * h == w * x) by (nonlinear_arith)
        requires
            x == a + h,
    ;
    assert(q * (w * d) <= w * x < (q + 1) * (w * d)) by (nonlinear_arith)
        requires
            x == d * q + x % d,
            0 <= x % d < d,
            w >= 1,
    ;
    lemma_asr_bounds(w * x, n + k, q, q + 1);
    assert(n + k - 1 == n + (k - 1));
    assert(0 * p2(bd - 8) == 0) by (nonlinear_arith);
}

/// Weights equal to the denominator with no offsets are plain averaging.
pub proof fn neutral_weights_are_bi(a: int, b: int, w0: i32, w1: i32, log2_denom: u8, bd: int)
    requires
        8 <= bd <= 14,
        -32768 <= a <= 32767,
        -32768 <= b <= 32767,
        w0 == p2(log2_denom as int),
        w1 == w0,
    ensures
        (Blend::BiWeighted { w0, o0: 0, w1, o1: 0, log2_denom }).value(a, b, bd)
            == Blend::Bi.value(a, b, bd),
{
    let k = 14 - bd;
    let n = log2_denom as int;
    let w = p2(n);
    let h = p2(k);
    let d = p2(k + 1);
    lemma_p2_pos(n);
    lemma_p2_pos(k);
    lemma_p2_mono(k, 6);
    lemma_p2_values();
    lemma_p2_add(n, k);
    lemma_p2_add(n, k + 1);
    let x = a + b + h;
    let q = asr(x, k + 1);
    vstd::arithmetic::div_mod::lemma_fundamental_div_mod(x, d);
    assert(a * w + b * w + w * h == w * x) by (nonlinear_arith)
        requires
            x == a + b + h,
    ;
    assert(q * (w * d) <= w * x < (q + 1) * (w * d)) by (nonlinear_arith)
        requires
            x == d * q + x % d,
            0 <= x % d < d,
            w >= 1,
    ;
    lemma_asr_bounds(w * x, n + (k + 1), q, q + 1);
    lemma_asr_shrinks(x, k + 1);
    assert(0 * p2(bd - 8) == 0) by (nonlinear_arith);
    assert(scaled(0, bd) == 0);
    assert(log2_denom + 14 - bd == n + k);
    assert(log2_denom + 15 - bd == n + (k + 1));
    assert(a * w0 + b * w1 + (scaled(0, bd) + scaled(0, bd) + 1) * p2(n + k) == w * x) by {
        assert(1 * p2(n + k) == w * h) by (nonlinear_arith)
            requires
                p2(n + k) == w * h,
        ;
    }
    assert(wrap_i32(q) == q);
    let blend = Blend::BiWeighted { w0, o0: 0, w1, o1: 0, log2_denom };
    assert(blend.wide(a, b, bd) == q);
    assert(Blend::Bi.wide(a, b, bd) == q);
}

/// The order of two weighted predictions does not matter.
pub proof fn weighted_order_is_free(
    a: int,
    b: int,
    w0: i32,
    o0: i32,
    w1: i32,
    o1: i32,
    log2_denom: u8,
    bd: int,
)
    ensures
        (Blend::BiWeighted { w0, o0, w1, o1, log2_denom }).value(a, b, bd) == (Blend::BiWeighted {
            w0: w1,
            o0: o1,
            w1: w0,
            o1: o0,
            log2_denom,
        }).value(b, a, bd),
{
}

/// The luma filters for quarters of a sample.
pub open spec fn luma_taps(f: int) -> Seq<int> {
    if f == 0 {
        seq![0, 0, 0, 64, 0, 0, 0, 0]
    } else if f == 1 {
        seq![-1, 4, -10, 58, 17, -5, 1, 0]
    } else if f == 2 {
        seq![-1, 4, -11, 40, 40, -11, 4, -1]
    } else {
        seq![0, 1, -5, 17, 58, -10, 4, -1]
    }
}

/// The chroma filters for eighths of a sample.
pub open spec fn chroma_taps(f: int) -> Seq<int> {
    if f == 0 {
        seq![0, 64, 0, 0]
    } else if f == 1 {
        seq![-2, 58, 10, -2]
    } else if f == 2 {
        seq![-4, 54, 16, -2]
    } else if f == 3 {
        seq![-6, 46, 28, -4]
    } else if f == 4 {
        seq![-4, 36, 36, -4]
    } else if f == 5 {
        seq![-4, 28, 46, -6]
    } else if f == 6 {
        seq![-2, 16, 54, -4]
    } else {
        seq![-2, 10, 58, -2]
    }
}

/// The filters of a position and of its mirror image are each other's reverse.
pub proof fn filters_are_fixed(f: int, t: int)
    ensures
        0 <= f < 4 && 0 <= t < 8 ==> LUMA_FILTER@[f]@[t] == luma_taps(f)[t],
        0 < f < 4 && 0 <= t < 8 ==> luma_taps(4 - f)[7 - t] == luma_taps(f)[t],
        0 <= f < 8 && 0 <= t < 4 ==> CHROMA_FILTER@[f]@[t] == chroma_taps(f)[t],
        0 < f < 8 && 0 <= t < 4 ==> chroma_taps(8 - f)[3 - t] == chroma_taps(f)[t],
{
    if 0 <= f < 4 && 0 <= t < 8 {
        assert(f == 0 || f == 1 || f == 2 || f == 3);
        assert(t == 0 || t == 1 || t == 2 || t == 3 || t == 4 || t == 5 || t == 6 || t == 7);
    }
    if 0 <= f < 8 && 0 <= t < 4 {
        assert(f == 0 || f == 1 || f == 2 || f == 3 || f == 4 || f == 5 || f == 6 || f == 7);
        assert(t == 0 || t == 1 || t == 2 || t == 3);
    }
}

/// A position outside the plane reads the nearest sample inside.
pub proof fn borders_extend_the_plane(r: RefPlane<'_>, x: int, y: int, cx: int, cy: int)
    requires
        r.wf(),
        0 <= cx < r.width,
        0 <= cy < r.height,
        0 <= x < r.width ==> cx == x,
        x < 0 ==> cx == 0,
        x >= r.width ==> cx == r.width - 1,
        0 <= y < r.height ==> cy == y,
        y < 0 ==> cy == 0,
        y >= r.height ==> cy == r.height - 1,
    ensures
        r.at(x, y) == r.data@[cy * r.stride + cx],
{
}

proof fn lemma_filtered_total(
    c: Seq<i32>,
    s: spec_fn(int) -> int,
    w: spec_fn(int) -> int,
    v: spec_fn(int) -> int,
    k: int,
)
    requires
        0 <= k <= c.len(),
        forall|i: int| 0 <= i < k ==> #[trigger] w(i) == c[i],
        forall|i: int| 0 <= i < k ==> #[trigger] v(i) == s(i),
    ensures
        filter_sum(c, s, k) == weighted_total(w, v, k),
    decreases k,
{
    if k > 0 {
        lemma_filtered_total(c, s, w, v, k - 1);
        assert(w(k - 1) == c[k - 1]);
        assert(v(k - 1) == s(k - 1));
    }
}

/// Luma prediction at whole and fractional positions. A whole position is the sample in 14 bits. A
/// fractional one along a row or a column is the sum of the 8 samples around it, weighted by the
/// filter, from 3 before to 4 behind, rounded down to 14 bits. A position that is fractional both
/// ways filters the rows first, then down the column of their results in units of 64.
pub proof fn luma_positions_are_interpolated(
    r: RefPlane<'_>,
    x: int,
    y: int,
    fx: int,
    fy: int,
    bd: int,
    rows: spec_fn(int) -> int,
    v: int,
)
    requires
        0 <= fx < 4,
        0 <= fy < 4,
        8 <= bd <= 14,
        fx == 0 && fy == 0 ==> v == r.at(x, y) * p2(14 - bd),
        fx > 0 && fy == 0 ==> floor_over(
            v,
            weighted_total(|t: int| luma_taps(fx)[t], |t: int| r.at(x - 3 + t, y), 8),
            p2(bd - 8),
        ),
        fx == 0 && fy > 0 ==> floor_over(
            v,
            weighted_total(|t: int| luma_taps(fy)[t], |t: int| r.at(x, y - 3 + t), 8),
            p2(bd - 8),
        ),
        fx > 0 && fy > 0 ==> {
            &&& forall|i: int|
                0 <= i < 8 ==> floor_over(
                    #[trigger] rows(i),
                    weighted_total(
                        |t: int| luma_taps(fx)[t],
                        |t: int| r.at(x - 3 + t, y - 3 + i),
                        8,
                    ),
                    p2(bd - 8),
                )
            &&& floor_over(v, weighted_total(|t: int| luma_taps(fy)[t], rows, 8), 64)
        },
    ensures
        -32768 <= Interpolation::luma(fx, fy, bd).value(r, x, y) <= 32767,
        (Interpolation::luma(fx, fy, bd).value(r, x, y) - v) % 65536 == 0,
        -32768 <= v <= 32767 ==> Interpolation::luma(fx, fy, bd).value(r, x, y) == v,
{
    let f = Interpolation::luma(fx, fy, bd);
    lemma_p2_values();
    assert forall|t: int| 0 <= t < 8 implies #[trigger] luma_taps(fx)[t] == f.hf[t] by {
        filters_are_fixed(fx, t);
    }
    assert forall|t: int| 0 <= t < 8 implies #[trigger] luma_taps(fy)[t] == f.vf[t] by {
        filters_are_fixed(fy, t);
    }
    let hw = |t: int| luma_taps(fx)[t];
    let vw = |t: int| luma_taps(fy)[t];
    if fx == 0 && fy == 0 {
        lemma_p2_add(14 - bd, bd - 8);
        let (a, d, e) = (r.at(x, y), p2(bd - 8), p2(14 - bd));
        lemma_p2_pos(bd - 8);
        assert(floor_over(v, a * 64, d)) by (nonlinear_arith)
            requires
                v == a * e,
                e * d == 64,
                d >= 1,
        ;
        lemma_asr_is_floor(v, a * 64, bd - 8);
    } else if fy == 0 {
        let s = |t: int| r.at(x - f.lead + t, y);
        lemma_filtered_total(f.hf, s, hw, |t: int| r.at(x - 3 + t, y), 8);
        lemma_asr_is_floor(v, f.row_sum(r, x, y), bd - 8);
    } else if fx == 0 {
        let s = |t: int| r.at(x, y - f.lead + t);
        lemma_filtered_total(f.vf, s, vw, |t: int| r.at(x, y - 3 + t), 8);
        lemma_asr_is_floor(v, f.column_sum(r, x, y), bd - 8);
    } else {
        let down = |t: int| asr(f.row_sum(r, x, y - f.lead + t), f.shift);
        assert forall|i: int| 0 <= i < 8 implies #[trigger] rows(i) == down(i) by {
            let yy = y - 3 + i;
            let s = |t: int| r.at(x - f.lead + t, yy);
            let u = |t: int| r.at(x - 3 + t, y - 3 + i);
            lemma_filtered_total(f.hf, s, hw, u, 8);
            lemma_asr_is_floor(rows(i), f.row_sum(r, x, yy), bd - 8);
        }
        lemma_filtered_total(f.vf, down, vw, rows, 8);
        lemma_asr_is_floor(v, f.both_sum(r, x, y), 6);
    }
}

/// Chroma prediction at whole and fractional positions. A whole position is the sample in 14 bits.
/// A fractional one along a row or a column is the sum of the 4 samples around it, weighted by the
/// filter, from 1 before to 2 behind, rounded down to 14 bits. A position that is fractional both
/// ways filters the rows first, then down the column of their results in units of 64.
pub proof fn chroma_positions_are_interpolated(
    r: RefPlane<'_>,
    x: int,
    y: int,
    fx: int,
    fy: int,
    bd: int,
    rows: spec_fn(int) -> int,
    v: int,
)
    requires
        0 <= fx < 8,
        0 <= fy < 8,
        8 <= bd <= 14,
        fx == 0 && fy == 0 ==> v == r.at(x, y) * p2(14 - bd),
        fx > 0 && fy == 0 ==> floor_over(
            v,
            weighted_total(|t: int| chroma_taps(fx)[t], |t: int| r.at(x - 1 + t, y), 4),
            p2(bd - 8),
        ),
        fx == 0 && fy > 0 ==> floor_over(
            v,
            weighted_total(|t: int| chroma_taps(fy)[t], |t: int| r.at(x, y - 1 + t), 4),
            p2(bd - 8),
        ),
        fx > 0 && fy > 0 ==> {
            &&& forall|i: int|
                0 <= i < 4 ==> floor_over(
                    #[trigger] rows(i),
                    weighted_total(
                        |t: int| chroma_taps(fx)[t],
                        |t: int| r.at(x - 1 + t, y - 1 + i),
                        4,
                    ),
                    p2(bd - 8),
                )
            &&& floor_over(v, weighted_total(|t: int| chroma_taps(fy)[t], rows, 4), 64)
        },
    ensures
        -32768 <= Interpolation::chroma(fx, fy, bd).value(r, x, y) <= 32767,
        (Interpolation::chroma(fx, fy, bd).value(r, x, y) - v) % 65536 == 0,
        -32768 <= v <= 32767 ==> Interpolation::chroma(fx, fy, bd).value(r, x, y) == v,
{
    let f = Interpolation::chroma(fx, fy, bd);
    lemma_p2_values();
    assert forall|t: int| 0 <= t < 4 implies #[trigger] chroma_taps(fx)[t] == f.hf[t] by {
        filters_are_fixed(fx, t);
    }
    assert forall|t: int| 0 <= t < 4 implies #[trigger] chroma_taps(fy)[t] == f.vf[t] by {
        filters_are_fixed(fy, t);
    }
    let hw = |t: int| chroma_taps(fx)[t];
    let vw = |t: int| chroma_taps(fy)[t];
    if fx == 0 && fy == 0 {
        lemma_p2_add(14 - bd, bd - 8);
        let (a, d, e) = (r.at(x, y), p2(bd - 8), p2(14 - bd));
        lemma_p2_pos(bd - 8);
        assert(floor_over(v, a * 64, d)) by (nonlinear_arith)
            requires
                v == a * e,
                e * d == 64,
                d >= 1,
        ;
        lemma_asr_is_floor(v, a * 64, bd - 8);
    } else if fy == 0 {
        let s = |t: int| r.at(x - f.lead + t, y);
        lemma_filtered_total(f.hf, s, hw, |t: int| r.at(x - 1 + t, y), 4);
        lemma_asr_is_floor(v, f.row_sum(r, x, y), bd - 8);
    } else if fx == 0 {
        let s = |t: int| r.at(x, y - f.lead + t);
        lemma_filtered_total(f.vf, s, vw, |t: int| r.at(x, y - 1 + t), 4);
        lemma_asr_is_floor(v, f.column_sum(r, x, y), bd - 8);
    } else {
        let down = |t: int| asr(f.row_sum(r, x, y - f.lead + t), f.shift);
        assert forall|i: int| 0 <= i < 4 implies #[trigger] rows(i) == down(i) by {
            let yy = y - 1 + i;
            let s = |t: int| r.at(x - f.lead + t, yy);
            let u = |t: int| r.at(x - 1 + t, y - 1 + i);
            lemma_filtered_total(f.hf, s, hw, u, 4);
            lemma_asr_is_floor(rows(i), f.row_sum(r, x, yy), bd - 8);
        }
        lemma_filtered_total(f.vf, down, vw, rows, 4);
        lemma_asr_is_floor(v, f.both_sum(r, x, y), 6);
    }
}

/// Position `(x, y)` of a predicted block is stored at `y * w + x`, and what lies behind the block
/// stays.
pub proof fn predicted_blocks_are_stored_by_rows(
    out: Seq<i16>,
    before: Seq<i16>,
    f: Interpolation,
    r: RefPlane<'_>,
    x0: int,
    y0: int,
    w: int,
    h: int,
    x: int,
    y: int,
    j: int,
)
    requires
        block_of(out, before, f, r, x0, y0, w, h),
        0 <= x < w,
        0 <= y < h,
    ensures
        out.len() == before.len(),
        w * h <= j < before.len() ==> out[j] == before[j],
        out[y * w + x] == f.value(r, x0 + x, y0 + y),
{
    lemma_row_major(y, x, w, h);
    assert(h * w == w * h) by (nonlinear_arith);
    assert(out[y * w + x] == f.value(r, x0 + (y * w + x) % w, y0 + (y * w + x) / w));
}

/// Sample `(x, y)` of the output, at `y * stride + x`, combines the predictions at `y * w + x` if
/// it lies in the block and its row is there whole; every other sample stays.
pub proof fn blends_are_written_in_place(
    out: Seq<u16>,
    before: Seq<u16>,
    blend: Blend,
    s0: Seq<i16>,
    s1: Seq<i16>,
    w: int,
    h: int,
    bd: int,
    stride: int,
    x: int,
    y: int,
)
    requires
        blended(out, before, blend, s0, s1, w, h, bd, stride),
        0 <= x < stride,
        0 <= y,
        y * stride + x < before.len(),
    ensures
        out.len() == before.len(),
        out[y * stride + x] == (if x < w && y < h && (y + 1) * stride <= before.len() {
            blend.value(s0[y * w + x] as int, s1[y * w + x] as int, bd)
        } else {
            before[y * stride + x] as int
        }),
{
    lemma_row_major(y, x, stride, y + 1);
}

/// `v` is `t`, or the nearer end of the sample range where that lies outside it.
pub open spec fn within_depth(v: int, t: int, bd: int) -> bool {
    &&& 0 <= t < p2(bd) ==> v == t
    &&& t < 0 ==> v == 0
    &&& t >= p2(bd) ==> v == p2(bd) - 1
}

/// `v` is the signed 32-bit number with the low bits of `t`.
pub open spec fn same_32_bits(v: int, t: int) -> bool {
    i32::MIN <= v <= i32::MAX && (v - t) % 0x1_0000_0000 == 0
}

/// One prediction becomes the nearest sample, two the nearest to their mean.
pub proof fn predictions_are_rounded_to_samples(a: int, b: int, bd: int, t: int)
    requires
        0 <= bd <= 14,
    ensures
        nearest(t, a, p2(14 - bd)) ==> within_depth(Blend::Uni.value(a, b, bd), t, bd),
        nearest(t, a + b, 2 * p2(14 - bd)) ==> within_depth(Blend::Bi.value(a, b, bd), t, bd),
{
    lemma_p2_pos(bd);
    lemma_p2_values();
    if bd < 14 {
        lemma_asr_nearest(t, a, 14 - bd);
    }
    lemma_asr_nearest(t, a + b, 15 - bd);
}

/// A weighted prediction is the nearest sample to its product with the weight, in units of the
/// denominator and of the lost bits, plus the offset in the sample's scale, in 32 bits.
pub proof fn weighted_predictions_are_scaled(
    a: int,
    b: int,
    weight: i32,
    offset: i32,
    log2_denom: u8,
    bd: int,
    t: int,
    s: int,
)
    requires
        8 <= bd <= 14,
        same_32_bits(s, offset * p2(bd - 8)),
        nearest(t, a * weight, p2(log2_denom + 14 - bd)),
    ensures
        within_depth(
            (Blend::UniWeighted { weight, offset, log2_denom }).value(a, b, bd),
            t + s,
            bd,
        ),
{
    lemma_p2_pos(bd);
    lemma_p2_values();
    let k = log2_denom + 14 - bd;
    if k >= 1 {
        lemma_asr_nearest(t, a * weight, k);
    }
}

/// Two weighted predictions are the mean of their products with the weights, plus the mean of the
/// offsets in the sample's scale, half a unit up and rounded down. Offsets and sum are kept to 32
/// bits.
pub proof fn weighted_pairs_are_averaged(
    a: int,
    b: int,
    w0: i32,
    o0: i32,
    w1: i32,
    o1: i32,
    log2_denom: u8,
    bd: int,
    unit: int,
    s0: int,
    s1: int,
    t: int,
    v: int,
)
    requires
        8 <= bd <= 14,
        same_32_bits(s0, o0 * p2(bd - 8)),
        same_32_bits(s1, o1 * p2(bd - 8)),
        unit == p2(log2_denom + 14 - bd),
        floor_over(t, a * w0 + b * w1 + (s0 + s1 + 1) * unit, 2 * unit),
        same_32_bits(v, t),
    ensures
        within_depth(
            (Blend::BiWeighted { w0, o0, w1, o1, log2_denom }).value(a, b, bd),
            v,
            bd,
        ),
{
    lemma_p2_pos(bd);
    let k = log2_denom + 15 - bd;
    assert(p2(k) == 2 * p2(k - 1));
    lemma_asr_is_floor(
        t,
        a * w0 + b * w1 + (scaled(o0 as int, bd) + scaled(o1 as int, bd) + 1) * unit,
        k,
    );
}

} // verus!
