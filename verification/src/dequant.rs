//! Scaling of transform coefficient levels, with and without scaling lists and transform skip.
use vstd::prelude::*;
use crate::arith::{
    asr, clip16, clip3, clip3_i32, clip3_i64, lemma_asr_bounds, lemma_asr_floor, lemma_asr_mono,
    lemma_p2_add, lemma_p2_mono, lemma_p2_pos, lemma_p2_values, lemma_row_major,
    lemma_row_major_split, min_int, p2, pow2_i32, pow2_i64,
    pow2_usize, shr_i32, shr_i64, shr_usize,
};
use crate::transform::{transform_size, Coeff};

verus! {

/// Largest multiplier that keeps a 32-bit level times it inside 64 bits.
pub const FACTOR_LIMIT: i64 = 3221225472;

/// Base-2 logarithm of a transform size.
pub open spec fn log2_size(n: int) -> int {
    if n == 4 {
        2
    } else if n == 8 {
        3
    } else if n == 16 {
        4
    } else {
        5
    }
}

pub fn log2_size_of(n: usize) -> (r: u32)
    requires
        transform_size(n as int),
    ensures
        r == log2_size(n as int),
        n == p2(r as int),
{
    proof {
        lemma_p2_values();
    }
    if n == 4 {
        2
    } else if n == 8 {
        3
    } else if n == 16 {
        4
    } else {
        5
    }
}

/// The quantiser step of the six residues of the quantisation parameter.
pub open spec fn level_scale(rem: int) -> int {
    if rem == 0 {
        40
    } else if rem == 1 {
        45
    } else if rem == 2 {
        51
    } else if rem == 3 {
        57
    } else if rem == 4 {
        64
    } else {
        72
    }
}

/// Multiplier, rounding term and shift of a block.
#[derive(Clone, Copy, PartialEq, Eq, Structural)]
pub struct DequantParams {
    pub factor: i64,
    pub add: i64,
    pub shift: i32,
}

impl DequantParams {
    pub open spec fn wf(self) -> bool {
        &&& 0 <= self.factor <= FACTOR_LIMIT
        &&& 0 <= self.add <= 1152921504606846976
        &&& 0 <= self.shift < 64
    }

    /// The multiplier leaves room for a scaling-list entry in place of the neutral 16.
    pub open spec fn wf_scaled(self) -> bool {
        &&& self.wf()
        &&& self.factor <= 202116096
    }

    /// The multiplier for scaling-list entry `m`.
    pub open spec fn scaled_factor(self, m: int) -> int {
        (self.factor as int / 16) * m
    }
}

/// Shift of a transform-skip block, after its dequantisation.
#[derive(Clone, Copy, PartialEq, Eq, Structural)]
pub struct TransformSkipParams {
    pub dequant: DequantParams,
    pub tr_add: i32,
    pub tr_shift: i32,
}

impl TransformSkipParams {
    pub open spec fn wf(self) -> bool {
        &&& self.dequant.wf()
        &&& 0 <= self.tr_add <= 32768
        &&& -15 <= self.tr_shift < 32
    }
}

/// A level scaled by `factor`, rounded and clipped to 16 bits.
pub open spec fn dequant_value(level: int, factor: int, add: int, shift: int) -> int {
    clip16(asr(level * factor + add, shift))
}

/// The transform-skip shift: right with rounding, or left.
pub open spec fn skip_shift(deq: int, tr_add: int, tr_shift: int) -> int {
    if tr_shift >= 0 {
        asr(deq + tr_add, tr_shift)
    } else {
        deq * p2(-tr_shift)
    }
}

/// The residual of a transform-skip sample whose dequantised value is `deq`.
pub open spec fn skip_value(deq: int, params: TransformSkipParams) -> int {
    clip16(skip_shift(deq, params.tr_add as int, params.tr_shift as int))
}

/// The quantisation parameter limited to what `bit_depth` allows.
pub open spec fn qp_clipped(qp_prime: int, bit_depth: int) -> int {
    clip3(0, 51 + 6 * (bit_depth - 8), qp_prime)
}

/// The dequantisation shift of an `n` by `n` block.
pub open spec fn dequant_shift(n: int, bit_depth: int) -> int {
    if bit_depth + log2_size(n) - 5 < 1 {
        1
    } else {
        bit_depth + log2_size(n) - 5
    }
}

/// The parameters of an `n` by `n` block.
pub open spec fn dequant_params_for(n: int, qp_prime: int, bit_depth: int) -> DequantParams {
    let qp = qp_clipped(qp_prime, bit_depth);
    DequantParams {
        factor: (level_scale(qp % 6) * p2(qp / 6) * 16) as i64,
        add: p2(dequant_shift(n, bit_depth) - 1) as i64,
        shift: dequant_shift(n, bit_depth) as i32,
    }
}

/// The parameters of an `n` by `n` transform-skip block.
pub open spec fn skip_params_for(n: int, qp_prime: int, bit_depth: int) -> TransformSkipParams {
    let s = 15 - bit_depth - log2_size(n);
    TransformSkipParams {
        dequant: dequant_params_for(n, qp_prime, bit_depth),
        tr_add: (if s > 0 {
            p2(s - 1)
        } else {
            0
        }) as i32,
        tr_shift: s as i32,
    }
}

/// A scaling list for one block size: an 8x8 (or 4x4) matrix, replicated to the block size, with a
/// separate entry for the DC coefficient of blocks of 16 and more.
#[derive(Clone, Copy)]
pub struct ScalingMatrix<'a> {
    pub coeffs: &'a [u8; 64],
    pub dc: u8,
    pub log2_size: u32,
    pub flat_16: bool,
}

impl<'a> ScalingMatrix<'a> {
    pub open spec fn wf(self) -> bool {
        2 <= self.log2_size <= 5
    }

    /// The entry for flat coefficient index `idx`.
    pub open spec fn entry(self, idx: int) -> int {
        let n = p2(self.log2_size as int);
        let d = if self.log2_size >= 3 {
            self.log2_size - 3
        } else {
            0
        };
        if self.log2_size == 2 {
            self.coeffs@[idx] as int
        } else if idx == 0 && self.log2_size >= 4 {
            self.dc as int
        } else {
            self.coeffs@[asr(idx / n, d) * 8 + asr(idx % n, d)] as int
        }
    }

    pub fn new(coeffs: &'a [u8; 64], dc: u8, n: usize, flat_16: bool) -> (r: Self)
        requires
            transform_size(n as int),
        ensures
            r.wf(),
            r.coeffs == coeffs,
            r.dc == dc,
            r.flat_16 == flat_16,
            p2(r.log2_size as int) == n,
    {
        ScalingMatrix { coeffs, dc, log2_size: log2_size_of(n), flat_16 }
    }

    /// Every entry is the neutral 16, so the list can be ignored.
    pub fn is_flat_16(self) -> (r: bool)
        ensures
            r == self.flat_16,
    {
        self.flat_16
    }

    pub fn coeff(self, idx: usize) -> (r: i64)
        requires
            self.wf(),
            idx < p2(self.log2_size as int) * p2(self.log2_size as int),
        ensures
            r == self.entry(idx as int),
            0 <= r <= 255,
    {
        proof {
            lemma_p2_values();
        }
        if self.log2_size == 2 {
            return self.coeffs[idx] as i64;
        }
        if idx == 0 && self.log2_size >= 4 {
            return self.dc as i64;
        }
        let n: usize = pow2_usize(self.log2_size);
        let y: usize = idx / n;
        let x: usize = idx % n;
        let downshift: u32 = self.log2_size - 3;
        proof {
            lemma_row_major_split(idx as int, n as int, n as int);
            if downshift == 0 {
            } else if downshift == 1 {
            } else {
                assert(downshift == 2);
            }
            lemma_asr_bounds(x as int, downshift as int, 0, 8);
            lemma_asr_bounds(y as int, downshift as int, 0, 8);
        }
        let sx: usize = shr_usize(x, downshift);
        let sy: usize = shr_usize(y, downshift);
        self.coeffs[sy * 8 + sx] as i64
    }
}

fn level_scale_of(rem: i64) -> (r: i64)
    requires
        0 <= rem < 6,
    ensures
        r == level_scale(rem as int),
        40 <= r <= 72,
{
    if rem == 0 {
        40
    } else if rem == 1 {
        45
    } else if rem == 2 {
        51
    } else if rem == 3 {
        57
    } else if rem == 4 {
        64
    } else {
        72
    }
}

/// Parameters of an `n` by `n` block at quantisation parameter `qp_prime`, which already includes
/// the bit-depth offset.
pub fn dequant_params(n: usize, qp_prime: i32, bit_depth: u8) -> (r: DequantParams)
    requires
        transform_size(n as int),
        bit_depth <= 21,
    ensures
        r == dequant_params_for(n as int, qp_prime as int, bit_depth as int),
        r.factor == level_scale(qp_clipped(qp_prime as int, bit_depth as int) % 6) * p2(
            qp_clipped(qp_prime as int, bit_depth as int) / 6,
        ) * 16,
        r.add == p2(r.shift - 1),
        r.shift == dequant_shift(n as int, bit_depth as int),
        r.wf(),
        bit_depth <= 17 ==> r.wf_scaled(),
        r.shift <= 21,
{
    let log2n: i64 = log2_size_of(n) as i64;
    let raw_shift: i64 = bit_depth as i64 + log2n - 5;
    let bd_shift: i64 = if raw_shift < 1 {
        1
    } else {
        raw_shift
    };
    let max_qp_prime: i32 = 51 + 6 * (bit_depth as i32 - 8);
    let qp: i64 = clip3_i32(0, max_qp_prime, qp_prime) as i64;
    let scale: i64 = level_scale_of(qp % 6);
    let per: i64 = pow2_i64((qp / 6) as u32);
    proof {
        lemma_p2_values();
        reveal_with_fuel(p2, 24);
        lemma_p2_mono(qp as int / 6, 21);
        lemma_p2_pos(qp as int / 6);
        if bit_depth <= 17 {
            lemma_p2_mono(qp as int / 6, 17);
        }
        lemma_p2_mono(bd_shift - 1, 20);
        lemma_p2_pos(bd_shift - 1);
        assert(0 <= scale * per <= 72 * per) by (nonlinear_arith)
            requires
                0 <= scale <= 72,
                0 <= per,
        ;
    }
    let add: i64 = pow2_i64((bd_shift - 1) as u32);
    DequantParams { factor: scale * per * 16, add, shift: bd_shift as i32 }
}

/// Parameters of a transform-skip block.
pub fn transform_skip_params(n: usize, qp_prime: i32, bit_depth: u8) -> (r: TransformSkipParams)
    requires
        transform_size(n as int),
        bit_depth <= 21,
    ensures
        r == skip_params_for(n as int, qp_prime as int, bit_depth as int),
        r.wf(),
        bit_depth <= 17 ==> r.dequant.wf_scaled(),
{
    let dequant: DequantParams = dequant_params(n, qp_prime, bit_depth);
    let tr_shift: i32 = 15 - bit_depth as i32 - log2_size_of(n) as i32;
    proof {
        lemma_p2_values();
        lemma_p2_mono(tr_shift - 1, 12);
        lemma_p2_pos(tr_shift - 1);
    }
    let tr_add: i32 = if tr_shift > 0 {
        pow2_i32((tr_shift - 1) as u32)
    } else {
        0
    };
    TransformSkipParams { dequant, tr_add, tr_shift }
}

/// One level scaled in 64-bit arithmetic.
fn dequant_level(level: i32, factor: i64, add: i64, shift: i32) -> (r: i32)
    requires
        0 <= factor <= FACTOR_LIMIT,
        0 <= add <= 1152921504606846976,
        0 <= shift < 64,
    ensures
        r == dequant_value(level as int, factor as int, add as int, shift as int),
        -32768 <= r <= 32767,
{
    proof {
        assert(-6917529027641081856 <= level * factor <= 6917529027641081856) by (nonlinear_arith)
            requires
                -2147483648 <= level <= 2147483647,
                0 <= factor <= 3221225472,
        ;
    }
    clip3_i64(-32768, 32767, shr_i64(level as i64 * factor + add, shift as u32)) as i32
}

fn apply_transform_skip_shift(deq: i32, params: TransformSkipParams) -> (r: i32)
    requires
        params.wf(),
        -32768 <= deq <= 32767,
    ensures
        r == skip_shift(deq as int, params.tr_add as int, params.tr_shift as int),
{
    if params.tr_shift >= 0 {
        shr_i32(deq + params.tr_add, params.tr_shift as u32)
    } else {
        proof {
            lemma_p2_values();
            lemma_p2_mono(-params.tr_shift as int, 15);
            lemma_p2_pos(-params.tr_shift as int);
            assert(-1073741824 <= deq * p2(-params.tr_shift as int) <= 1073741824) by (nonlinear_arith)
                requires
                    -32768 <= deq <= 32767,
                    1 <= p2(-params.tr_shift as int) <= 32768,
            ;
        }
        deq * pow2_i32((-params.tr_shift) as u32)
    }
}

pub(crate) fn skip_level(deq: i32, params: TransformSkipParams) -> (r: i32)
    requires
        params.wf(),
        -32768 <= deq <= 32767,
    ensures
        r == skip_value(deq as int, params),
        -32768 <= r <= 32767,
{
    clip3_i32(-32768, 32767, apply_transform_skip_shift(deq, params))
}

/// Block `out` holds `f(i)` in each of its first `count` places and is otherwise as in `before`.
pub open spec fn block_is<S: Coeff>(
    out: Seq<S>,
    before: Seq<S>,
    count: int,
    f: spec_fn(int) -> int,
) -> bool {
    &&& out.len() == before.len()
    &&& forall|i: int| 0 <= i < count ==> (#[trigger] out[i]).value() == f(i)
    &&& forall|i: int| count <= i < out.len() ==> #[trigger] out[i] == before[i]
}

/// The number of levels of an `n` by `n` block that are there to be scaled.
pub open spec fn level_count(levels: Seq<i32>, n: int) -> int {
    min_int(n * n, levels.len() as int)
}

pub open spec fn dequantized(levels: Seq<i32>, p: DequantParams) -> spec_fn(int) -> int {
    |i: int| dequant_value(levels[i] as int, p.factor as int, p.add as int, p.shift as int)
}

pub open spec fn dequantized_scaled(
    levels: Seq<i32>,
    p: DequantParams,
    m: ScalingMatrix<'_>,
) -> spec_fn(int) -> int {
    |i: int|
        dequant_value(
            levels[i] as int,
            p.scaled_factor(m.entry(i)),
            p.add as int,
            p.shift as int,
        )
}

pub open spec fn skipped(levels: Seq<i32>, p: TransformSkipParams) -> spec_fn(int) -> int {
    |i: int| skip_value(dequantized(levels, p.dequant)(i), p)
}

pub open spec fn skipped_scaled(
    levels: Seq<i32>,
    p: TransformSkipParams,
    m: ScalingMatrix<'_>,
) -> spec_fn(int) -> int {
    |i: int| skip_value(dequantized_scaled(levels, p.dequant, m)(i), p)
}

pub(crate) fn count_levels(levels: &[i32], n: usize) -> (r: usize)
    requires
        transform_size(n as int),
    ensures
        r == level_count(levels@, n as int),
{
    proof {
        assert(n * n <= 1024) by (nonlinear_arith)
            requires
                n <= 32,
        ;
    }
    let full: usize = n * n;
    if full <= levels.len() {
        full
    } else {
        levels.len()
    }
}

pub fn dequantize_into_scalar<S: Coeff>(
    levels: &[i32],
    n: usize,
    params: DequantParams,
    out: &mut [S],
)
    requires
        transform_size(n as int),
        params.wf(),
        old(out).len() >= n * n,
    ensures
        block_is(
            final(out)@,
            old(out)@,
            level_count(levels@, n as int),
            dequantized(levels@, params),
        ),
{
    let count: usize = count_levels(levels, n);
    for i in 0..count
        invariant
            params.wf(),
            count == level_count(levels@, n as int),
            old(out).len() >= n * n,
            block_is(out@, old(out)@, i as int, dequantized(levels@, params)),
    {
        let v: i32 = dequant_level(levels[i], params.factor, params.add, params.shift);
        proof {
            S::lemma_holds_16_bits(v as int);
        }
        out[i] = S::from_i32(v);
    }
}

pub fn dequantize_transform_skip_into_scalar<S: Coeff>(
    levels: &[i32],
    n: usize,
    params: TransformSkipParams,
    out: &mut [S],
)
    requires
        n == 4,
        params.wf(),
        old(out).len() >= n * n,
    ensures
        block_is(
            final(out)@,
            old(out)@,
            level_count(levels@, n as int),
            skipped(levels@, params),
        ),
{
    let count: usize = count_levels(levels, n);
    for i in 0..count
        invariant
            params.wf(),
            count == level_count(levels@, n as int),
            old(out).len() >= n * n,
            block_is(out@, old(out)@, i as int, skipped(levels@, params)),
    {
        let d: DequantParams = params.dequant;
        let deq: i32 = dequant_level(levels[i], d.factor, d.add, d.shift);
        let v: i32 = skip_level(deq, params);
        proof {
            S::lemma_holds_16_bits(v as int);
        }
        out[i] = S::from_i32(v);
    }
}

/// The multiplier for scaling-list entry `m`.
pub(crate) fn scaled_factor_of(params: DequantParams, m: i64) -> (r: i64)
    requires
        params.wf_scaled(),
        0 <= m <= 255,
    ensures
        r == params.scaled_factor(m as int),
        0 <= r <= FACTOR_LIMIT,
{
    let base: i64 = params.factor / 16;
    proof {
        assert(0 <= base * m <= 12632256 * 255) by (nonlinear_arith)
            requires
                0 <= base <= 12632256,
                0 <= m <= 255,
        ;
    }
    base * m
}

pub fn dequantize_scaled_into_scalar<S: Coeff>(
    levels: &[i32],
    n: usize,
    params: DequantParams,
    scaling: ScalingMatrix<'_>,
    out: &mut [S],
)
    requires
        transform_size(n as int),
        params.wf_scaled(),
        scaling.wf(),
        p2(scaling.log2_size as int) == n,
        old(out).len() >= n * n,
    ensures
        block_is(
            final(out)@,
            old(out)@,
            level_count(levels@, n as int),
            dequantized_scaled(levels@, params, scaling),
        ),
{
    let count: usize = count_levels(levels, n);
    for i in 0..count
        invariant
            params.wf_scaled(),
            scaling.wf(),
            p2(scaling.log2_size as int) == n,
            count == level_count(levels@, n as int),
            old(out).len() >= n * n,
            block_is(out@, old(out)@, i as int, dequantized_scaled(levels@, params, scaling)),
    {
        let factor: i64 = scaled_factor_of(params, scaling.coeff(i));
        let v: i32 = dequant_level(levels[i], factor, params.add, params.shift);
        proof {
            S::lemma_holds_16_bits(v as int);
        }
        out[i] = S::from_i32(v);
    }
}

pub fn dequantize_transform_skip_scaled_into_scalar<S: Coeff>(
    levels: &[i32],
    n: usize,
    params: TransformSkipParams,
    scaling: ScalingMatrix<'_>,
    out: &mut [S],
)
    requires
        n == 4,
        params.wf(),
        params.dequant.wf_scaled(),
        scaling.wf(),
        p2(scaling.log2_size as int) == n,
        old(out).len() >= n * n,
    ensures
        block_is(
            final(out)@,
            old(out)@,
            level_count(levels@, n as int),
            skipped_scaled(levels@, params, scaling),
        ),
{
    let count: usize = count_levels(levels, n);
    for i in 0..count
        invariant
            params.wf(),
            params.dequant.wf_scaled(),
            scaling.wf(),
            p2(scaling.log2_size as int) == n,
            count == level_count(levels@, n as int),
            old(out).len() >= n * n,
            block_is(out@, old(out)@, i as int, skipped_scaled(levels@, params, scaling)),
    {
        let d: DequantParams = params.dequant;
        let factor: i64 = scaled_factor_of(d, scaling.coeff(i));
        let deq: i32 = dequant_level(levels[i], factor, d.add, d.shift);
        let v: i32 = skip_level(deq, params);
        proof {
            S::lemma_holds_16_bits(v as int);
        }
        out[i] = S::from_i32(v);
    }
}

/// Dequantises a block at quantisation parameter `qp_prime`.
pub fn dequantize_into<S: Coeff>(
    levels: &[i32],
    n: usize,
    qp_prime: i32,
    bit_depth: u8,
    out: &mut [S],
)
    requires
        transform_size(n as int),
        bit_depth <= 21,
        old(out).len() >= n * n,
    ensures
        block_is(
            final(out)@,
            old(out)@,
            level_count(levels@, n as int),
            dequantized(
                levels@,
                dequant_params_for(n as int, qp_prime as int, bit_depth as int),
            ),
        ),
{
    let params: DequantParams = dequant_params(n, qp_prime, bit_depth);
    dequantize_into_scalar(levels, n, params, out);
}

/// Dequantises a 4x4 block that skips the transform.
pub fn dequantize_transform_skip_into<S: Coeff>(
    levels: &[i32],
    n: usize,
    qp_prime: i32,
    bit_depth: u8,
    out: &mut [S],
)
    requires
        n == 4,
        bit_depth <= 21,
        old(out).len() >= n * n,
    ensures
        block_is(
            final(out)@,
            old(out)@,
            level_count(levels@, n as int),
            skipped(levels@, skip_params_for(n as int, qp_prime as int, bit_depth as int)),
        ),
{
    let params: TransformSkipParams = transform_skip_params(n, qp_prime, bit_depth);
    dequantize_transform_skip_into_scalar(levels, n, params, out);
}

/// A scaling list is present and does not declare itself flat.
pub open spec fn list_applies(scaling: Option<ScalingMatrix<'_>>) -> bool {
    match scaling {
        Some(m) => !m.flat_16,
        None => false,
    }
}

/// An applicable list fits an `n` by `n` block, and the depth leaves room for its entries.
pub open spec fn list_fits(scaling: Option<ScalingMatrix<'_>>, n: int, bit_depth: int) -> bool {
    match scaling {
        Some(m) => !m.flat_16 ==> m.wf() && p2(m.log2_size as int) == n && bit_depth <= 17,
        None => true,
    }
}

/// Dequantises a block, with a scaling list unless it is absent or flat.
pub fn dequantize_scaled_into<S: Coeff>(
    levels: &[i32],
    n: usize,
    qp_prime: i32,
    bit_depth: u8,
    scaling: Option<ScalingMatrix<'_>>,
    out: &mut [S],
)
    requires
        transform_size(n as int),
        bit_depth <= 21,
        list_fits(scaling, n as int, bit_depth as int),
        old(out).len() >= n * n,
    ensures
        block_is(
            final(out)@,
            old(out)@,
            level_count(levels@, n as int),
            if list_applies(scaling) {
                dequantized_scaled(
                    levels@,
                    dequant_params_for(n as int, qp_prime as int, bit_depth as int),
                    scaling.unwrap(),
                )
            } else {
                dequantized(
                    levels@,
                    dequant_params_for(n as int, qp_prime as int, bit_depth as int),
                )
            },
        ),
{
    match scaling {
        Some(m) => {
            if m.is_flat_16() {
                dequantize_into(levels, n, qp_prime, bit_depth, out);
            } else {
                let params: DequantParams = dequant_params(n, qp_prime, bit_depth);
                dequantize_scaled_into_scalar(levels, n, params, m, out);
            }
        },
        None => {
            dequantize_into(levels, n, qp_prime, bit_depth, out);
        },
    }
}

/// Dequantises a transform-skip block, with a scaling list unless it is absent or flat.
pub fn dequantize_transform_skip_scaled_into<S: Coeff>(
    levels: &[i32],
    n: usize,
    qp_prime: i32,
    bit_depth: u8,
    scaling: Option<ScalingMatrix<'_>>,
    out: &mut [S],
)
    requires
        n == 4,
        bit_depth <= 21,
        list_fits(scaling, n as int, bit_depth as int),
        old(out).len() >= n * n,
    ensures
        block_is(
            final(out)@,
            old(out)@,
            level_count(levels@, n as int),
            if list_applies(scaling) {
                skipped_scaled(
                    levels@,
                    skip_params_for(n as int, qp_prime as int, bit_depth as int),
                    scaling.unwrap(),
                )
            } else {
                skipped(levels@, skip_params_for(n as int, qp_prime as int, bit_depth as int))
            },
        ),
{
    match scaling {
        Some(m) => {
            if m.is_flat_16() {
                dequantize_transform_skip_into(levels, n, qp_prime, bit_depth, out);
            } else {
                let params: TransformSkipParams = transform_skip_params(n, qp_prime, bit_depth);
                dequantize_transform_skip_scaled_into_scalar(levels, n, params, m, out);
            }
        },
        None => {
            dequantize_transform_skip_into(levels, n, qp_prime, bit_depth, out);
        },
    }
}

/// A scaling list whose entries are all 16 dequantises like no list at all.
pub proof fn neutral_list_changes_nothing(
    levels: Seq<i32>,
    n: int,
    qp_prime: int,
    bit_depth: int,
    m: ScalingMatrix<'_>,
    i: int,
)
    requires
        transform_size(n),
        0 <= bit_depth <= 17,
        0 <= i < levels.len(),
        m.entry(i) == 16,
    ensures
        dequantized_scaled(levels, dequant_params_for(n, qp_prime, bit_depth), m)(i)
            == dequantized(levels, dequant_params_for(n, qp_prime, bit_depth))(i),
{
    let qp = qp_clipped(qp_prime, bit_depth);
    let a = level_scale(qp % 6);
    let b = p2(qp / 6);
    lemma_p2_mono(qp / 6, 17);
    lemma_p2_pos(qp / 6);
    reveal_with_fuel(p2, 19);
    assert(0 <= a * b <= 72 * 131072) by (nonlinear_arith)
        requires
            0 <= a <= 72,
            0 <= b <= 131072,
    ;
    let p = dequant_params_for(n, qp_prime, bit_depth);
    assert(p.factor == a * b * 16);
    assert(p.scaled_factor(16) == p.factor);
}

/// Dequantisation preserves the order of levels.
pub proof fn dequantisation_is_monotone(a: int, b: int, factor: int, add: int, shift: int)
    requires
        a <= b,
        0 <= factor,
    ensures
        dequant_value(a, factor, add, shift) <= dequant_value(b, factor, add, shift),
{
    assert(a * factor <= b * factor) by (nonlinear_arith)
        requires
            a <= b,
            0 <= factor,
    ;
    lemma_asr_mono(a * factor + add, b * factor + add, shift);
}

proof fn lemma_factor(n: int, qp_prime: int, bit_depth: int)
    requires
        0 <= bit_depth <= 21,
        0 <= qp_prime <= 51 + 6 * (bit_depth - 8),
    ensures
        dequant_params_for(n, qp_prime, bit_depth).factor == level_scale(qp_prime % 6) * p2(
            qp_prime / 6,
        ) * 16,
        1 <= p2(qp_prime / 6) <= 2097152,
{
    let a = level_scale(qp_prime % 6);
    let b = p2(qp_prime / 6);
    reveal_with_fuel(p2, 23);
    lemma_p2_mono(qp_prime / 6, 21);
    lemma_p2_pos(qp_prime / 6);
    assert(0 <= a * b <= 72 * 2097152) by (nonlinear_arith)
        requires
            0 <= a <= 72,
            0 <= b <= 2097152,
    ;
}

/// The multipliers of the quantisation parameters 0 to 5 are sixteen times 40, 45, 51, 57, 64 and
/// 72, and every six parameters the multiplier doubles.
pub proof fn quantiser_steps_double_every_six(n: int, qp_prime: int, bit_depth: int)
    requires
        0 <= bit_depth <= 21,
        0 <= qp_prime <= 51 + 6 * (bit_depth - 8),
    ensures
        qp_prime < 6 ==> dequant_params_for(n, qp_prime, bit_depth).factor == 16 * seq![
            40int,
            45,
            51,
            57,
            64,
            72,
        ][qp_prime],
        qp_prime >= 6 ==> dequant_params_for(n, qp_prime, bit_depth).factor == 2
            * dequant_params_for(n, qp_prime - 6, bit_depth).factor,
{
    lemma_factor(n, qp_prime, bit_depth);
    lemma_p2_values();
    if qp_prime >= 6 {
        lemma_factor(n, qp_prime - 6, bit_depth);
        assert((qp_prime - 6) % 6 == qp_prime % 6);
        assert((qp_prime - 6) / 6 == qp_prime / 6 - 1);
        assert(p2(qp_prime / 6) == 2 * p2(qp_prime / 6 - 1));
        let a = level_scale(qp_prime % 6);
        let b = p2(qp_prime / 6 - 1);
        assert(a * (2 * b) * 16 == 2 * (a * b * 16)) by (nonlinear_arith);
    }
}

/// A larger quantisation parameter has a larger multiplier.
pub proof fn quantiser_steps_grow(n: int, a: int, b: int, bit_depth: int)
    requires
        0 <= bit_depth <= 21,
        0 <= a < b <= 51 + 6 * (bit_depth - 8),
    ensures
        dequant_params_for(n, a, bit_depth).factor < dequant_params_for(n, b, bit_depth).factor,
    decreases b - a,
{
    let c = b - 1;
    lemma_factor(n, c, bit_depth);
    lemma_factor(n, b, bit_depth);
    let x = p2(c / 6);
    if c % 6 == 5 {
        assert(b % 6 == 0 && b / 6 == c / 6 + 1);
        assert(p2(b / 6) == 2 * x);
        assert(40 * (2 * x) * 16 == 80 * x * 16);
    } else {
        assert(b % 6 == c % 6 + 1 && b / 6 == c / 6);
        let (u, v) = (level_scale(c % 6), level_scale(b % 6));
        assert(u * x < v * x) by (nonlinear_arith)
            requires
                u < v,
                x >= 1,
        ;
    }
    if a < c {
        quantiser_steps_grow(n, a, c, bit_depth);
    }
}

/// Quantisation parameters beyond the range of the bit depth count as the nearest in it.
pub proof fn quantisation_parameters_are_limited(n: int, qp_prime: int, bit_depth: int)
    requires
        0 <= 51 + 6 * (bit_depth - 8),
    ensures
        qp_prime < 0 ==> dequant_params_for(n, qp_prime, bit_depth) == dequant_params_for(
            n,
            0,
            bit_depth,
        ),
        qp_prime > 51 + 6 * (bit_depth - 8) ==> dequant_params_for(n, qp_prime, bit_depth)
            == dequant_params_for(n, 51 + 6 * (bit_depth - 8), bit_depth),
{
}

/// The unit of a block is its size times the sample range over 32, at least two; half of it is
/// added for rounding.
pub proof fn dequantisation_unit_follows_size_and_depth(n: int, qp_prime: int, bit_depth: int)
    requires
        transform_size(n),
        0 <= bit_depth <= 21,
    ensures
        ({
            let p = dequant_params_for(n, qp_prime, bit_depth);
            let unit = p2(p.shift as int);
            &&& n * p2(bit_depth) >= 64 ==> 32 * unit == n * p2(bit_depth)
            &&& n * p2(bit_depth) < 64 ==> unit == 2
            &&& 2 * p.add == unit
        }),
{
    lemma_p2_values();
    let l = log2_size(n);
    let s = dequant_shift(n, bit_depth);
    assert(n == p2(l));
    lemma_p2_add(l, bit_depth);
    assert(p2(s) == 2 * p2(s - 1));
    reveal_with_fuel(p2, 23);
    lemma_p2_mono(s - 1, 20);
    lemma_p2_pos(s - 1);
    if bit_depth + l >= 6 {
        lemma_p2_mono(6, bit_depth + l);
        lemma_p2_add(5, s);
        assert(5 + s == l + bit_depth);
    } else {
        lemma_p2_mono(l + bit_depth, 5);
    }
}

/// `v` is `num` over `unit` to the nearest, halves up, as far as 16 bits go.
pub open spec fn nearest_16(v: int, num: int, unit: int) -> bool {
    &&& -32768 <= v <= 32767
    &&& 2 * num >= (2 * v - 1) * unit || v == -32768
    &&& 2 * num < (2 * v + 1) * unit || v == 32767
    &&& v == -32768 ==> 2 * num < (2 * v + 1) * unit
    &&& v == 32767 ==> 2 * num >= (2 * v - 1) * unit
}

proof fn lemma_nearest_16(num: int, add: int, k: int)
    requires
        2 * add == p2(k),
    ensures
        nearest_16(clip16(asr(num + add, k)), num, p2(k)),
{
    lemma_asr_floor(num + add, k);
    lemma_p2_pos(k);
    let u = p2(k);
    let q = asr(num + add, k);
    assert((2 * q - 1) * u <= 2 * num < (2 * q + 1) * u) by (nonlinear_arith)
        requires
            q * u <= num + add < (q + 1) * u,
            2 * add == u,
    ;
    if q < -32768 {
        assert((2 * q + 1) * u <= -65537 * u) by (nonlinear_arith)
            requires
                q <= -32769,
                u >= 1,
        ;
        assert(-65537 * u < -65535 * u);
    }
    if q > 32767 {
        assert((2 * q - 1) * u >= 65535 * u) by (nonlinear_arith)
            requires
                q >= 32768,
                u >= 1,
        ;
        assert(65535 * u > 65533 * u);
    }
}

/// Each level times the multiplier is divided by the unit of the block, to the nearest; levels that
/// are not there leave their places alone.
pub proof fn levels_are_scaled_to_the_nearest<S: Coeff>(
    levels: Seq<i32>,
    n: int,
    qp_prime: int,
    bit_depth: int,
    before: Seq<S>,
    out: Seq<S>,
    i: int,
)
    requires
        transform_size(n),
        0 <= bit_depth <= 21,
        0 <= i < before.len(),
        block_is(
            out,
            before,
            level_count(levels, n),
            dequantized(levels, dequant_params_for(n, qp_prime, bit_depth)),
        ),
    ensures
        out.len() == before.len(),
        i >= n * n || i >= levels.len() ==> out[i] == before[i],
        i < n * n && i < levels.len() ==> nearest_16(
            out[i].value(),
            levels[i] * dequant_params_for(n, qp_prime, bit_depth).factor,
            p2(dequant_params_for(n, qp_prime, bit_depth).shift as int),
        ),
{
    let p = dequant_params_for(n, qp_prime, bit_depth);
    dequantisation_unit_follows_size_and_depth(n, qp_prime, bit_depth);
    if i < n * n && i < levels.len() {
        lemma_nearest_16(levels[i] * p.factor, p.add as int, p.shift as int);
        assert(out[i].value() == dequantized(levels, p)(i));
    }
}

/// With a scaling list, a level is multiplied by the entry of its place in sixteenths.
pub proof fn listed_levels_are_scaled_to_the_nearest<S: Coeff>(
    levels: Seq<i32>,
    n: int,
    qp_prime: int,
    bit_depth: int,
    m: ScalingMatrix<'_>,
    before: Seq<S>,
    out: Seq<S>,
    i: int,
)
    requires
        transform_size(n),
        0 <= bit_depth <= 17,
        0 <= 51 + 6 * (bit_depth - 8),
        0 <= i < before.len(),
        block_is(
            out,
            before,
            level_count(levels, n),
            dequantized_scaled(levels, dequant_params_for(n, qp_prime, bit_depth), m),
        ),
    ensures
        i >= n * n || i >= levels.len() ==> out[i] == before[i],
        i < n * n && i < levels.len() ==> nearest_16(
            out[i].value(),
            levels[i] * ((dequant_params_for(n, qp_prime, bit_depth).factor as int / 16) * m.entry(
                i,
            )),
            p2(dequant_params_for(n, qp_prime, bit_depth).shift as int),
        ),
        dequant_params_for(n, qp_prime, bit_depth).factor as int % 16 == 0,
{
    let p = dequant_params_for(n, qp_prime, bit_depth);
    dequantisation_unit_follows_size_and_depth(n, qp_prime, bit_depth);
    let qp = qp_clipped(qp_prime, bit_depth);
    lemma_factor(n, qp, bit_depth);
    if i < n * n && i < levels.len() {
        lemma_nearest_16(levels[i] * p.scaled_factor(m.entry(i)), p.add as int, p.shift as int);
        assert(out[i].value() == dequantized_scaled(levels, p, m)(i));
    }
}

/// A 4x4 list has an entry for each coefficient. Every entry of an 8x8 list stands for a square of
/// coefficients, as large as the block needs; the first coefficient of blocks of 16 and more has an
/// entry of its own.
pub proof fn list_entries_stand_for_squares(m: ScalingMatrix<'_>, n: int, x: int, y: int)
    requires
        m.wf(),
        n == p2(m.log2_size as int),
        0 <= x < n,
        0 <= y < n,
    ensures
        n == 4 ==> m.entry(y * n + x) == m.coeffs@[4 * y + x],
        n == 8 ==> m.entry(y * n + x) == m.coeffs@[8 * y + x],
        n == 16 ==> m.entry(y * n + x) == if x == 0 && y == 0 {
            m.dc
        } else {
            m.coeffs@[8 * (y / 2) + x / 2]
        },
        n == 32 ==> m.entry(y * n + x) == if x == 0 && y == 0 {
            m.dc
        } else {
            m.coeffs@[8 * (y / 4) + x / 4]
        },
{
    lemma_p2_values();
    lemma_row_major(y, x, n, n);
    assert(n == 4 ==> y * n == 4 * y) by (nonlinear_arith);
    assert(m.log2_size == 2 || m.log2_size == 3 || m.log2_size == 4 || m.log2_size == 5);
}

/// The residual of a transform-skip sample is its dequantised value over what is left of 15 bits
/// after size and depth, to the nearest; where nothing is left it is multiplied instead.
pub proof fn skipped_samples_are_shifted_to_15_bits(
    deq: int,
    n: int,
    qp_prime: int,
    bit_depth: int,
)
    requires
        transform_size(n),
        0 <= bit_depth <= 21,
    ensures
        ({
            let p = skip_params_for(n, qp_prime, bit_depth);
            let reach = n * p2(bit_depth);
            let v = skip_value(deq, p);
            &&& p.dequant == dequant_params_for(n, qp_prime, bit_depth)
            &&& -32768 <= v <= 32767
            &&& reach < 32768 ==> nearest_16(v, deq * reach, 32768)
            &&& reach >= 32768 ==> (32768 * v == deq * reach || (v == 32767 && deq * reach > 32768
                * v) || (v == -32768 && deq * reach < 32768 * v))
        }),
{
    lemma_p2_values();
    let l = log2_size(n);
    let p = skip_params_for(n, qp_prime, bit_depth);
    let s = 15 - bit_depth - l;
    let reach = n * p2(bit_depth);
    assert(n == p2(l));
    lemma_p2_add(l, bit_depth);
    if s > 0 {
        lemma_p2_add(l + bit_depth, s);
        assert(reach * p2(s) == 32768);
        lemma_p2_mono(s, 13);
        lemma_p2_pos(s - 1);
        assert(p2(s) == 2 * p2(s - 1));
        assert(p.tr_add == p2(s - 1));
        lemma_nearest_16(deq, p.tr_add as int, s);
        let v = skip_value(deq, p);
        assert(v == clip16(asr(deq + p.tr_add, s)));
        lemma_p2_mono(l + bit_depth, 14);
        lemma_p2_pos(l + bit_depth);
        lemma_nearest_scales(v, deq, p2(s), reach);
        assert(p2(s) * reach == reach * p2(s)) by (nonlinear_arith);
    } else if s == 0 {
        assert(p2(15) == 32768);
        assert(asr(deq, 0) == deq);
    } else {
        lemma_p2_add(15, -s);
        let k = p2(-s);
        assert(reach == 32768 * k);
        assert(deq * reach == 32768 * (deq * k)) by (nonlinear_arith)
            requires
                reach == 32768 * k,
        ;
        lemma_p2_pos(-s);
    }
}

proof fn lemma_nearest_scales(v: int, num: int, unit: int, k: int)
    requires
        nearest_16(v, num, unit),
        k >= 1,
    ensures
        nearest_16(v, num * k, unit * k),
{
    assert(2 * (num * k) == (2 * num) * k) by (nonlinear_arith);
    assert((2 * v - 1) * (unit * k) == ((2 * v - 1) * unit) * k) by (nonlinear_arith);
    assert((2 * v + 1) * (unit * k) == ((2 * v + 1) * unit) * k) by (nonlinear_arith);
    let (a, b, c) = ((2 * v - 1) * unit, 2 * num, (2 * v + 1) * unit);
    assert(a <= b <==> a * k <= b * k) by (nonlinear_arith)
        requires
            k >= 1,
    ;
    assert(b < c <==> b * k < c * k) by (nonlinear_arith)
        requires
            k >= 1,
    ;
}

/// A scaling list applies if there is one and it is not flat.
pub proof fn flat_lists_do_not_apply(m: ScalingMatrix<'_>)
    ensures
        list_applies(Some(m)) <==> !m.flat_16,
        !list_applies(None),
{
}

/// Where the transform is skipped, a level is dequantised and then shifted like a residual.
pub proof fn skipped_levels_are_dequantised_first<S: Coeff>(
    levels: Seq<i32>,
    n: int,
    p: TransformSkipParams,
    m: ScalingMatrix<'_>,
    before: Seq<S>,
    plain: Seq<S>,
    listed: Seq<S>,
    i: int,
)
    requires
        block_is(plain, before, level_count(levels, n), skipped(levels, p)),
        block_is(listed, before, level_count(levels, n), skipped_scaled(levels, p, m)),
        0 <= i < n * n,
        i < levels.len(),
        i < before.len(),
    ensures
        plain[i].value() == skip_value(
            dequant_value(
                levels[i] as int,
                p.dequant.factor as int,
                p.dequant.add as int,
                p.dequant.shift as int,
            ),
            p,
        ),
        listed[i].value() == skip_value(
            dequant_value(
                levels[i] as int,
                (p.dequant.factor as int / 16) * m.entry(i),
                p.dequant.add as int,
                p.dequant.shift as int,
            ),
            p,
        ),
{
    assert(plain[i].value() == skipped(levels, p)(i));
    assert(listed[i].value() == skipped_scaled(levels, p, m)(i));
}

} // verus!
