//! Dequantisation in 32-bit arithmetic. Levels are clipped to 16 bits first; products that could
//! leave 32 bits are recognised by comparing the level with precomputed saturation bounds.
use vstd::prelude::*;
use crate::arith::{
    asr, clip16, clip3, clip3_i32, clip3_i64, lemma_asr_bounds, lemma_asr_exact, lemma_asr_mono,
    lemma_p2_mono, lemma_p2_pos, lemma_p2_values, lemma_row_major_split, min_int, p2, pow2_i64,
    shr_i32, shr_i64,
};
use crate::dequant::{
    block_is, count_levels, dequant_value, level_count, scaled_factor_of, skip_level, skip_value,
    DequantParams, FACTOR_LIMIT, ScalingMatrix, TransformSkipParams,
};
use crate::transform::{transform_size, Coeff};

verus! {

/// A level clipped to 16 bits, then dequantised.
pub open spec fn clipped_dequant_value(level: int, factor: int, add: int, shift: int) -> int {
    dequant_value(clip16(level), factor, add, shift)
}

/// Quotient rounded up.
pub open spec fn ceil_div(n: int, d: int) -> int {
    -((-n) / d)
}

pub fn floor_div_i64(n: i64, d: i64) -> (r: i64)
    requires
        d > 0,
    ensures
        r == n as int / d as int,
{
    let q: i64 = n / d;
    let m: i64 = n % d;
    proof {
        lemma_floor_div(n as int, d as int);
    }
    if m < 0 {
        q - 1
    } else {
        q
    }
}

/// Flooring a negative quotient in terms of its magnitude.
proof fn lemma_floor_div(n: int, d: int)
    requires
        d > 0,
    ensures
        (-n) % d == 0 ==> n / d == -((-n) / d),
        (-n) % d > 0 ==> n / d == -((-n) / d) - 1,
        n < 0 ==> 0 <= (-n) / d <= -n,
        n < 0 && (-n) % d > 0 ==> (-n) / d < -n,
        n >= 0 ==> 0 <= n / d <= n,
{
    let q = (-n) / d;
    let r = (-n) % d;
    vstd::arithmetic::div_mod::lemma_fundamental_div_mod(-n, d);
    if r == 0 {
        assert(n == d * (-q) + 0) by (nonlinear_arith)
            requires
                -n == d * q + r,
                r == 0,
        ;
        vstd::arithmetic::div_mod::lemma_fundamental_div_mod_converse(n, d, -q, 0);
    } else {
        assert(n == d * (-q - 1) + (d - r)) by (nonlinear_arith)
            requires
                -n == d * q + r,
        ;
        vstd::arithmetic::div_mod::lemma_fundamental_div_mod_converse(n, d, -q - 1, d - r);
    }
    if n < 0 {
        assert(0 <= q <= -n && (r > 0 ==> q < -n)) by (nonlinear_arith)
            requires
                -n == d * q + r,
                0 <= r < d,
                n < 0,
        ;
    } else {
        let k = n / d;
        vstd::arithmetic::div_mod::lemma_fundamental_div_mod(n, d);
        assert(0 <= k <= n) by (nonlinear_arith)
            requires
                n == d * k + n % d,
                0 <= n % d < d,
                n >= 0,
        ;
    }
}

pub fn ceil_div_i64(n: i64, d: i64) -> (r: i64)
    requires
        d > 0,
        n > i64::MIN,
    ensures
        r == ceil_div(n as int, d as int),
{
    proof {
        lemma_floor_div(-n, d as int);
    }
    -floor_div_i64(-n, d)
}

/// The largest level that is not rounded up to the top of the 16-bit range: levels above it reach
/// `32767` or more before clipping. Without a positive factor no level does.
pub open spec fn pos_cut(factor: int, add: int, shift: int) -> int {
    if factor <= 0 {
        i32::MAX as int
    } else {
        clip3(
            i32::MIN as int,
            i32::MAX as int,
            ceil_div(32767 * p2(shift) - add, factor) - 1,
        )
    }
}

/// The smallest level that stays above the bottom of the 16-bit range.
pub open spec fn neg_keep(factor: int, add: int, shift: int) -> int {
    if factor <= 0 {
        i32::MIN as int
    } else {
        clip3(
            i32::MIN as int,
            i32::MAX as int,
            (-32767 * p2(shift) - 1 - add) / factor + 1,
        )
    }
}

/// The parameters for which 32-bit products are in question at all.
pub open spec fn narrow_args(factor: int, add: int, shift: int) -> bool {
    &&& 0 < factor <= i32::MAX
    &&& 0 <= add <= p2(shift)
    &&& 0 <= shift <= 16
}

proof fn lemma_p2_31(shift: int)
    requires
        0 <= shift <= 31,
    ensures
        1 <= p2(shift) <= 0x8000_0000,
{
    lemma_p2_values();
    lemma_p2_mono(shift, 31);
    lemma_p2_pos(shift);
}

pub fn dequant_pos_cut_minus_one(factor: i64, add: i64, shift: i32) -> (r: i32)
    requires
        0 <= add <= i32::MAX,
        0 <= shift <= 31,
    ensures
        r == pos_cut(factor as int, add as int, shift as int),
{
    if factor <= 0 {
        return i32::MAX;
    }
    proof {
        lemma_p2_31(shift as int);
    }
    let threshold: i64 = 32767 * pow2_i64(shift as u32) - add;
    proof {
        lemma_floor_div(-threshold, factor as int);
        lemma_floor_div(threshold as int, factor as int);
    }
    clip3_i64(i32::MIN as i64, i32::MAX as i64, ceil_div_i64(threshold, factor) - 1) as i32
}

pub fn dequant_neg_keep_min(factor: i64, add: i64, shift: i32) -> (r: i32)
    requires
        0 <= add <= i32::MAX,
        0 <= shift <= 31,
    ensures
        r == neg_keep(factor as int, add as int, shift as int),
{
    if factor <= 0 {
        return i32::MIN;
    }
    proof {
        lemma_p2_31(shift as int);
    }
    let threshold: i64 = -32767 * pow2_i64(shift as u32) - 1 - add;
    proof {
        lemma_floor_div(threshold as int, factor as int);
    }
    clip3_i64(i32::MIN as i64, i32::MAX as i64, floor_div_i64(threshold, factor) + 1) as i32
}

/// Both saturation bounds of a multiplier.
pub fn dequant_sat_bounds(factor: i64, add: i64, shift: i32) -> (r: (i32, i32))
    requires
        0 <= add <= i32::MAX,
        0 <= shift <= 31,
    ensures
        r.0 == pos_cut(factor as int, add as int, shift as int),
        r.1 == neg_keep(factor as int, add as int, shift as int),
{
    (dequant_pos_cut_minus_one(factor, add, shift), dequant_neg_keep_min(factor, add, shift))
}

/// The bounds decide which 16-bit levels saturate, and every other product fits in 32 bits.
proof fn lemma_sat_bounds(v: int, factor: int, add: int, shift: int)
    requires
        narrow_args(factor, add, shift),
        -32768 <= v <= 32767,
    ensures
        v > pos_cut(factor, add, shift) ==> dequant_value(v, factor, add, shift) == 32767,
        v < neg_keep(factor, add, shift) ==> dequant_value(v, factor, add, shift) == -32768,
        neg_keep(factor, add, shift) <= v <= pos_cut(factor, add, shift) ==> {
            &&& -2147483648 <= v * factor + add <= 2147483647
            &&& -2147483648 <= v * factor <= 2147483647
            &&& -32767 <= asr(v * factor + add, shift) <= 32767
        },
        !(v > pos_cut(factor, add, shift) && v < neg_keep(factor, add, shift)),
{
    let d = p2(shift);
    lemma_p2_values();
    lemma_p2_mono(shift, 16);
    lemma_p2_pos(shift);
    let t = 32767 * d - add;
    let c = ceil_div(t, factor);
    let b = -32767 * d - 1 - add;
    let f = b / factor;
    let x = v * factor + add;
    vstd::arithmetic::div_mod::lemma_fundamental_div_mod(-t, factor);
    vstd::arithmetic::div_mod::lemma_fundamental_div_mod(b, factor);
    let rt = (-t) % factor;
    let rb = b % factor;
    // t == factor * c - rt and b == factor * f + rb
    assert(t == factor * c - rt) by (nonlinear_arith)
        requires
            -t == factor * (-c) + rt,
    ;
    if v > c - 1 {
        assert(v * factor >= t) by (nonlinear_arith)
            requires
                v >= c,
                factor > 0,
                t == factor * c - rt,
                0 <= rt,
        ;
        assert(x >= 32767 * d);
        lemma_asr_mono(32767 * d, x, shift);
        lemma_asr_exact(32767, shift);
    } else {
        assert(v * factor < t) by (nonlinear_arith)
            requires
                v <= c - 1,
                factor > 0,
                t == factor * c - rt,
                rt < factor,
        ;
        assert(x < 32767 * d);
    }
    if v < f + 1 {
        assert(v * factor <= b) by (nonlinear_arith)
            requires
                v <= f,
                factor > 0,
                b == factor * f + rb,
                0 <= rb,
        ;
        assert(x <= -32767 * d - 1);
        lemma_asr_mono(x, -32767 * d - 1, shift);
        assert((-32768) * d <= -32767 * d - 1 < (-32767) * d);
        lemma_asr_bounds(-32767 * d - 1, shift, -32768, -32767);
    } else {
        assert(v * factor > b) by (nonlinear_arith)
            requires
                v >= f + 1,
                factor > 0,
                b == factor * f + rb,
                rb < factor,
        ;
        assert(x >= -32767 * d);
    }
    if f + 1 <= v <= c - 1 {
        lemma_asr_bounds(x, shift, -32767, 32767);
    }
}

/// One level in 32-bit arithmetic, given the saturation bounds of its multiplier.
fn dequant_level_saturating(
    level: i32,
    factor: i32,
    add: i32,
    shift: i32,
    pos_cut_minus_one: i32,
    neg_keep_min: i32,
) -> (r: i32)
    requires
        narrow_args(factor as int, add as int, shift as int),
        pos_cut_minus_one == pos_cut(factor as int, add as int, shift as int),
        neg_keep_min == neg_keep(factor as int, add as int, shift as int),
    ensures
        r == clipped_dequant_value(level as int, factor as int, add as int, shift as int),
        -32768 <= r <= 32767,
{
    let v: i32 = clip3_i32(-32768, 32767, level);
    proof {
        lemma_sat_bounds(v as int, factor as int, add as int, shift as int);
    }
    if v < neg_keep_min {
        -32768
    } else if v > pos_cut_minus_one {
        32767
    } else {
        shr_i32(v * factor + add, shift as u32)
    }
}

/// One level in 32-bit arithmetic whose product is known to fit.
fn dequant_level_direct(level: i32, factor: i32, add: i32, shift: i32) -> (r: i32)
    requires
        narrow_args(factor as int, add as int, shift as int),
        -2147483648 <= clip16(level as int) * factor,
        clip16(level as int) * factor + add <= 2147483647,
    ensures
        r == clipped_dequant_value(level as int, factor as int, add as int, shift as int),
        -32768 <= r <= 32767,
{
    let v: i32 = clip3_i32(-32768, 32767, level);
    clip3_i32(-32768, 32767, shr_i32(v * factor + add, shift as u32))
}

/// One level in 64-bit arithmetic, for multipliers that 32 bits cannot hold.
fn dequant_level_wide(level: i32, factor: i64, add: i64, shift: i32) -> (r: i32)
    requires
        0 <= factor <= FACTOR_LIMIT,
        0 <= add <= 1152921504606846976,
        0 <= shift < 64,
    ensures
        r == clipped_dequant_value(level as int, factor as int, add as int, shift as int),
        -32768 <= r <= 32767,
{
    let v: i32 = clip3_i32(-32768, 32767, level);
    proof {
        assert(-140737488355328 <= v * factor <= 140737488355328) by (nonlinear_arith)
            requires
                -32768 <= v <= 32767,
                0 <= factor <= 3221225472,
        ;
    }
    clip3_i64(-32768, 32767, shr_i64(v as i64 * factor + add, shift as u32)) as i32
}

/// How the levels of a block are to be multiplied.
#[derive(Clone, Copy, PartialEq, Eq, Structural)]
pub enum Width {
    /// Every product fits in 32 bits.
    Direct,
    /// Products are 32-bit after the saturating levels are set aside.
    Saturating,
    /// The multiplier needs 64 bits.
    Wide,
}

/// The largest magnitude that a level bounded by `max_abs_level` has after clipping to 16 bits.
pub open spec fn clipped_max_abs(max_abs_level: int) -> int {
    min_int(max_abs_level, 32768)
}

/// The width for multipliers of at most `max_factor` and levels of at most `max_abs_level`.
pub open spec fn width_for(max_factor: int, add: int, shift: int, max_abs_level: int) -> Width {
    if max_factor <= 0 || max_factor > i32::MAX || shift > 16 || add > p2(shift) {
        Width::Wide
    } else if clipped_max_abs(max_abs_level) * max_factor + add <= i32::MAX {
        Width::Direct
    } else {
        Width::Saturating
    }
}

/// Chooses the multiplication width. The product bound is tested by a division, which cannot
/// overflow.
pub fn choose_width(max_factor: i64, add: i64, shift: i32, max_abs_level: i32) -> (r: Width)
    requires
        max_abs_level >= 0,
        0 <= add,
        0 <= shift,
    ensures
        r == width_for(max_factor as int, add as int, shift as int, max_abs_level as int),
{
    if max_factor <= 0 || max_factor > i32::MAX as i64 || shift > 16 {
        return Width::Wide;
    }
    proof {
        lemma_p2_values();
        lemma_p2_mono(shift as int, 16);
    }
    if add > pow2_i64(shift as u32) {
        return Width::Wide;
    }
    let limit: i64 = (i32::MAX as i64 - add) / max_factor;
    let clipped: i64 = if max_abs_level > 32768 {
        32768
    } else {
        max_abs_level as i64
    };
    proof {
        let room = i32::MAX - add;
        vstd::arithmetic::div_mod::lemma_fundamental_div_mod(room, max_factor as int);
        let rest = room % max_factor as int;
        assert(clipped <= limit <==> clipped * max_factor <= room) by (nonlinear_arith)
            requires
                room == max_factor * limit + rest,
                0 <= rest < max_factor,
        ;
    }
    if clipped <= limit {
        Width::Direct
    } else {
        Width::Saturating
    }
}

/// One level multiplied at the chosen width.
fn dequant_level_at(width: Width, level: i32, factor: i64, add: i64, shift: i32) -> (r: i32)
    requires
        0 <= factor <= FACTOR_LIMIT,
        0 <= add <= 1152921504606846976,
        0 <= shift < 64,
        !(width is Wide) ==> factor <= i32::MAX && shift <= 16 && add <= p2(shift as int),
        width is Direct ==> -2147483648 <= clip16(level as int) * factor && clip16(level as int)
            * factor + add <= 2147483647,
    ensures
        r == clipped_dequant_value(level as int, factor as int, add as int, shift as int),
        -32768 <= r <= 32767,
{
    proof {
        if !(width is Wide) {
            lemma_p2_values();
            lemma_p2_mono(shift as int, 16);
        }
    }
    if factor == 0 {
        return dequant_level_wide(level, factor, add, shift);
    }
    match width {
        Width::Direct => dequant_level_direct(level, factor as i32, add as i32, shift),
        Width::Saturating => {
            let (pos, neg) = dequant_sat_bounds(factor, add, shift);
            dequant_level_saturating(level, factor as i32, add as i32, shift, pos, neg)
        },
        Width::Wide => dequant_level_wide(level, factor, add, shift),
    }
}

/// `max_abs_level` bounds the magnitude of every level of the block.
pub open spec fn bounds_levels(levels: Seq<i32>, n: int, max_abs_level: int) -> bool {
    forall|i: int|
        0 <= i < level_count(levels, n) ==> -max_abs_level <= #[trigger] levels[i] <= max_abs_level
}

pub open spec fn clip_dequantized(levels: Seq<i32>, p: DequantParams) -> spec_fn(int) -> int {
    |i: int| clipped_dequant_value(levels[i] as int, p.factor as int, p.add as int, p.shift as int)
}

pub open spec fn clip_dequantized_scaled(
    levels: Seq<i32>,
    p: DequantParams,
    m: ScalingMatrix<'_>,
) -> spec_fn(int) -> int {
    |i: int|
        clipped_dequant_value(
            levels[i] as int,
            p.scaled_factor(m.entry(i)),
            p.add as int,
            p.shift as int,
        )
}

pub open spec fn clip_skipped(levels: Seq<i32>, p: TransformSkipParams) -> spec_fn(int) -> int {
    |i: int| skip_value(clip_dequantized(levels, p.dequant)(i), p)
}

pub open spec fn clip_skipped_scaled(
    levels: Seq<i32>,
    p: TransformSkipParams,
    m: ScalingMatrix<'_>,
) -> spec_fn(int) -> int {
    |i: int| skip_value(clip_dequantized_scaled(levels, p.dequant, m)(i), p)
}

/// A level within the bound stays within the product that the width was chosen for.
proof fn lemma_direct_fits(level: int, factor: int, max_factor: int, add: int, max_abs_level: int)
    requires
        0 <= factor <= max_factor <= i32::MAX,
        0 <= add,
        -max_abs_level <= level <= max_abs_level,
        clipped_max_abs(max_abs_level) * max_factor + add <= i32::MAX,
    ensures
        -2147483648 <= clip16(level) * factor,
        clip16(level) * factor + add <= 2147483647,
{
    let v = clip16(level);
    let c = clipped_max_abs(max_abs_level);
    assert(-c <= v <= c);
    assert(-(c * max_factor) <= v * factor <= c * max_factor) by (nonlinear_arith)
        requires
            -c <= v <= c,
            0 <= factor <= max_factor,
    ;
}

/// Dequantises a block of clipped levels, choosing the multiplication width once.
pub fn dequantize_clipped_into<S: Coeff>(
    levels: &[i32],
    n: usize,
    params: DequantParams,
    max_abs_level: i32,
    out: &mut [S],
)
    requires
        transform_size(n as int),
        params.wf(),
        max_abs_level >= 0,
        bounds_levels(levels@, n as int, max_abs_level as int),
        old(out).len() >= n * n,
    ensures
        block_is(
            final(out)@,
            old(out)@,
            level_count(levels@, n as int),
            clip_dequantized(levels@, params),
        ),
{
    let d: DequantParams = params;
    let max_factor: i64 = d.factor;
    let width: Width = choose_width(max_factor, d.add, d.shift, max_abs_level);
    let count: usize = count_levels(levels, n);
    for i in 0..count
        invariant
            params.wf(),
            max_factor == params.factor,
            d == params,
            width == width_for(
                max_factor as int,
                d.add as int,
                d.shift as int,
                max_abs_level as int,
            ),
            count == level_count(levels@, n as int),
            bounds_levels(levels@, n as int, max_abs_level as int),
            old(out).len() >= n * n,
            block_is(out@, old(out)@, i as int, clip_dequantized(levels@, params)),
    {
        let factor: i64 = d.factor;
        proof {
            if width is Direct {
                lemma_direct_fits(
                    levels@[i as int] as int,
                    factor as int,
                    max_factor as int,
                    d.add as int,
                    max_abs_level as int,
                );
            }
        }
        let v: i32 = dequant_level_at(width, levels[i], factor, d.add, d.shift);
        proof {
            S::lemma_holds_16_bits(v as int);
        }
        out[i] = S::from_i32(v);
    }
}

/// Dequantises a 4x4 transform-skip block of clipped levels.
pub fn dequantize_clipped_transform_skip_into<S: Coeff>(
    levels: &[i32],
    n: usize,
    params: TransformSkipParams,
    max_abs_level: i32,
    out: &mut [S],
)
    requires
        n == 4,
        params.wf(),
        max_abs_level >= 0,
        bounds_levels(levels@, n as int, max_abs_level as int),
        old(out).len() >= n * n,
    ensures
        block_is(
            final(out)@,
            old(out)@,
            level_count(levels@, n as int),
            clip_skipped(levels@, params),
        ),
{
    let d: DequantParams = params.dequant;
    let max_factor: i64 = d.factor;
    let width: Width = choose_width(max_factor, d.add, d.shift, max_abs_level);
    let count: usize = count_levels(levels, n);
    for i in 0..count
        invariant
            params.wf(),
            max_factor == params.dequant.factor,
            d == params.dequant,
            width == width_for(
                max_factor as int,
                d.add as int,
                d.shift as int,
                max_abs_level as int,
            ),
            count == level_count(levels@, n as int),
            bounds_levels(levels@, n as int, max_abs_level as int),
            old(out).len() >= n * n,
            block_is(out@, old(out)@, i as int, clip_skipped(levels@, params)),
    {
        let factor: i64 = d.factor;
        proof {
            if width is Direct {
                lemma_direct_fits(
                    levels@[i as int] as int,
                    factor as int,
                    max_factor as int,
                    d.add as int,
                    max_abs_level as int,
                );
            }
        }
        let deq: i32 = dequant_level_at(width, levels[i], factor, d.add, d.shift);
        let v: i32 = skip_level(deq, params);
        proof {
            S::lemma_holds_16_bits(v as int);
        }
        out[i] = S::from_i32(v);
    }
}

/// Dequantises a block of clipped levels with a scaling list.
pub fn dequantize_clipped_scaled_into<S: Coeff>(
    levels: &[i32],
    n: usize,
    params: DequantParams,
    scaling: ScalingMatrix<'_>,
    max_abs_level: i32,
    out: &mut [S],
)
    requires
        transform_size(n as int),
        params.wf(),
        params.wf_scaled(),
        scaling.wf(),
        p2(scaling.log2_size as int) == n,
        max_abs_level >= 0,
        bounds_levels(levels@, n as int, max_abs_level as int),
        old(out).len() >= n * n,
    ensures
        block_is(
            final(out)@,
            old(out)@,
            level_count(levels@, n as int),
            clip_dequantized_scaled(levels@, params, scaling),
        ),
{
    let d: DequantParams = params;
    let max_coeff: i64 = max_entry(scaling);
    let max_factor: i64 = scaled_factor_of(d, max_coeff);
    let width: Width = choose_width(max_factor, d.add, d.shift, max_abs_level);
    let count: usize = count_levels(levels, n);
    for i in 0..count
        invariant
            params.wf(),
            params.wf_scaled(),
            scaling.wf(),
            p2(scaling.log2_size as int) == n,
            0 <= max_coeff <= 255,
            forall|j: int| 0 <= j < 64 ==> #[trigger] scaling.coeffs@[j] <= max_coeff,
            scaling.dc <= max_coeff,
            max_factor == params.scaled_factor(max_coeff as int),
            d == params,
            width == width_for(
                max_factor as int,
                d.add as int,
                d.shift as int,
                max_abs_level as int,
            ),
            count == level_count(levels@, n as int),
            bounds_levels(levels@, n as int, max_abs_level as int),
            old(out).len() >= n * n,
            block_is(out@, old(out)@, i as int, clip_dequantized_scaled(levels@, params, scaling)),
    {
        let factor: i64 = scaled_factor_of(d, scaling.coeff(i));
        proof {
            lemma_entry_bound(scaling, i as int, n as int, max_coeff as int);
            assert(d.scaled_factor(scaling.entry(i as int)) <= d.scaled_factor(max_coeff as int)) by {
                let b = d.factor as int / 16;
                let e = scaling.entry(i as int);
                assert(b * e <= b * max_coeff) by (nonlinear_arith)
                    requires
                        0 <= b,
                        e <= max_coeff,
                ;
            }
            if width is Direct {
                lemma_direct_fits(
                    levels@[i as int] as int,
                    factor as int,
                    max_factor as int,
                    d.add as int,
                    max_abs_level as int,
                );
            }
        }
        let v: i32 = dequant_level_at(width, levels[i], factor, d.add, d.shift);
        proof {
            S::lemma_holds_16_bits(v as int);
        }
        out[i] = S::from_i32(v);
    }
}

/// Dequantises a 4x4 transform-skip block of clipped levels with a scaling list.
pub fn dequantize_clipped_transform_skip_scaled_into<S: Coeff>(
    levels: &[i32],
    n: usize,
    params: TransformSkipParams,
    scaling: ScalingMatrix<'_>,
    max_abs_level: i32,
    out: &mut [S],
)
    requires
        n == 4,
        params.wf(),
        params.dequant.wf_scaled(),
        scaling.wf(),
        p2(scaling.log2_size as int) == n,
        max_abs_level >= 0,
        bounds_levels(levels@, n as int, max_abs_level as int),
        old(out).len() >= n * n,
    ensures
        block_is(
            final(out)@,
            old(out)@,
            level_count(levels@, n as int),
            clip_skipped_scaled(levels@, params, scaling),
        ),
{
    let d: DequantParams = params.dequant;
    let max_coeff: i64 = max_entry(scaling);
    let max_factor: i64 = scaled_factor_of(d, max_coeff);
    let width: Width = choose_width(max_factor, d.add, d.shift, max_abs_level);
    let count: usize = count_levels(levels, n);
    for i in 0..count
        invariant
            params.wf(),
            params.dequant.wf_scaled(),
            scaling.wf(),
            p2(scaling.log2_size as int) == n,
            0 <= max_coeff <= 255,
            forall|j: int| 0 <= j < 64 ==> #[trigger] scaling.coeffs@[j] <= max_coeff,
            scaling.dc <= max_coeff,
            max_factor == params.dequant.scaled_factor(max_coeff as int),
            d == params.dequant,
            width == width_for(
                max_factor as int,
                d.add as int,
                d.shift as int,
                max_abs_level as int,
            ),
            count == level_count(levels@, n as int),
            bounds_levels(levels@, n as int, max_abs_level as int),
            old(out).len() >= n * n,
            block_is(out@, old(out)@, i as int, clip_skipped_scaled(levels@, params, scaling)),
    {
        let factor: i64 = scaled_factor_of(d, scaling.coeff(i));
        proof {
            lemma_entry_bound(scaling, i as int, n as int, max_coeff as int);
            assert(d.scaled_factor(scaling.entry(i as int)) <= d.scaled_factor(max_coeff as int)) by {
                let b = d.factor as int / 16;
                let e = scaling.entry(i as int);
                assert(b * e <= b * max_coeff) by (nonlinear_arith)
                    requires
                        0 <= b,
                        e <= max_coeff,
                ;
            }
            if width is Direct {
                lemma_direct_fits(
                    levels@[i as int] as int,
                    factor as int,
                    max_factor as int,
                    d.add as int,
                    max_abs_level as int,
                );
            }
        }
        let deq: i32 = dequant_level_at(width, levels[i], factor, d.add, d.shift);
        let v: i32 = skip_level(deq, params);
        proof {
            S::lemma_holds_16_bits(v as int);
        }
        out[i] = S::from_i32(v);
    }
}

/// The largest entry of a scaling list, the separate DC entry included.
fn max_entry(scaling: ScalingMatrix<'_>) -> (r: i64)
    ensures
        0 <= r <= 255,
        scaling.dc <= r,
        forall|j: int| 0 <= j < 64 ==> #[trigger] scaling.coeffs@[j] <= r,
        r == scaling.dc || exists|j: int| 0 <= j < 64 && #[trigger] scaling.coeffs@[j] == r,
{
    let mut best: u8 = scaling.dc;
    for j in 0..64usize
        invariant
            scaling.dc <= best,
            forall|k: int| 0 <= k < j ==> #[trigger] scaling.coeffs@[k] <= best,
            best == scaling.dc || exists|k: int| 0 <= k < 64 && #[trigger] scaling.coeffs@[k] == best,
    {
        let c: u8 = scaling.coeffs[j];
        if c > best {
            best = c;
        }
    }
    best as i64
}

proof fn lemma_entry_bound(scaling: ScalingMatrix<'_>, idx: int, n: int, bound: int)
    requires
        scaling.wf(),
        p2(scaling.log2_size as int) == n,
        0 <= idx < n * n,
        scaling.dc <= bound,
        forall|j: int| 0 <= j < 64 ==> #[trigger] scaling.coeffs@[j] <= bound,
    ensures
        0 <= scaling.entry(idx) <= bound,
{
    lemma_p2_values();
    if scaling.log2_size == 2 {
    } else {
        let d = scaling.log2_size - 3;
        lemma_row_major_split(idx, n, n);
        assert(d == 0 || d == 1 || d == 2);
        lemma_asr_bounds(idx / n, d, 0, 8);
        lemma_asr_bounds(idx % n, d, 0, 8);
    }
}

/// The saturation bounds are exact: a level is above the one if it is dequantised to `32767` or
/// more before clipping, and below the other if to `-32768` or less.
pub proof fn saturation_bounds_are_exact(level: int, factor: int, add: int, shift: int)
    requires
        i32::MIN <= level <= i32::MAX,
        0 < factor <= i32::MAX,
        0 <= add <= i32::MAX,
        0 <= shift <= 31,
    ensures
        level > pos_cut(factor, add, shift) <==> asr(level * factor + add, shift) >= 32767,
        level < neg_keep(factor, add, shift) <==> asr(level * factor + add, shift) <= -32768,
{
    let d = p2(shift);
    lemma_p2_31(shift);
    let t = 32767 * d - add;
    let c = ceil_div(t, factor);
    let b = -32767 * d - 1 - add;
    let f = b / factor;
    let x = level * factor + add;
    vstd::arithmetic::div_mod::lemma_fundamental_div_mod(-t, factor);
    vstd::arithmetic::div_mod::lemma_fundamental_div_mod(b, factor);
    let rt = (-t) % factor;
    let rb = b % factor;
    assert(t == factor * c - rt) by (nonlinear_arith)
        requires
            -t == factor * (-c) + rt,
    ;
    assert(level >= c <==> level * factor >= t) by (nonlinear_arith)
        requires
            factor > 0,
            t == factor * c - rt,
            0 <= rt < factor,
    ;
    assert(level <= f <==> level * factor <= b) by (nonlinear_arith)
        requires
            factor > 0,
            b == factor * f + rb,
            0 <= rb < factor,
    ;
    if x >= 32767 * d {
        lemma_asr_mono(32767 * d, x, shift);
        lemma_asr_exact(32767, shift);
    } else {
        lemma_asr_mono(x, 32767 * d - 1, shift);
        lemma_asr_bounds(32767 * d - 1, shift, 32766, 32767);
    }
    if x <= -32767 * d - 1 {
        lemma_asr_mono(x, -32767 * d - 1, shift);
        lemma_asr_bounds(-32767 * d - 1, shift, -32768, -32767);
    } else {
        lemma_asr_mono(-32767 * d, x, shift);
        lemma_asr_exact(-32767, shift);
    }
    // the bounds only leave 32 bits on the side where no level reaches them
    assert(c - 1 >= i32::MIN) by (nonlinear_arith)
        requires
            t == factor * c - rt,
            0 <= rt,
            t >= 32767 - 2147483647,
            factor >= 1,
    ;
    assert(f + 1 <= i32::MAX) by (nonlinear_arith)
        requires
            b == factor * f + rb,
            b < 0,
            0 <= rb,
            factor >= 1,
    ;
}

/// Clipping first changes nothing for levels that are 16-bit already, so the narrow and the wide
/// dequantisation agree on them.
pub proof fn narrow_agrees_on_16_bit_levels(level: int, factor: int, add: int, shift: int)
    requires
        -32768 <= level <= 32767,
    ensures
        clipped_dequant_value(level, factor, add, shift) == dequant_value(
            level,
            factor,
            add,
            shift,
        ),
{
}

/// A level outside 16 bits counts as the nearest one inside; apart from that, 16-bit storage gives
/// what 32-bit storage gives. The same holds where transform skip or a scaling list follows.
pub proof fn levels_count_as_16_bits(
    levels: Seq<i32>,
    p: DequantParams,
    q: TransformSkipParams,
    m: ScalingMatrix<'_>,
    i: int,
    level: int,
)
    requires
        0 <= i < levels.len(),
        -32768 <= levels[i] <= 32767 ==> level == levels[i],
        levels[i] < -32768 ==> level == -32768,
        levels[i] > 32767 ==> level == 32767,
    ensures
        clip_dequantized(levels, p)(i) == dequant_value(
            level,
            p.factor as int,
            p.add as int,
            p.shift as int,
        ),
        clip_dequantized_scaled(levels, p, m)(i) == dequant_value(
            level,
            p.scaled_factor(m.entry(i)),
            p.add as int,
            p.shift as int,
        ),
        clip_skipped(levels, q)(i) == skip_value(
            dequant_value(
                level,
                q.dequant.factor as int,
                q.dequant.add as int,
                q.dequant.shift as int,
            ),
            q,
        ),
        clip_skipped_scaled(levels, q, m)(i) == skip_value(
            dequant_value(
                level,
                q.dequant.scaled_factor(m.entry(i)),
                q.dequant.add as int,
                q.dequant.shift as int,
            ),
            q,
        ),
{
}

/// 32-bit arithmetic is used only where the products fit: as they are if the largest one does, and
/// with the saturating levels set aside if the factor does.
pub proof fn narrow_arithmetic_fits(
    max_factor: int,
    add: int,
    shift: int,
    max_abs_level: int,
    level: int,
    factor: int,
)
    requires
        0 <= max_abs_level,
        -max_abs_level <= level <= max_abs_level,
        -32768 <= level <= 32768,
        0 <= factor <= max_factor,
        0 <= add,
    ensures
        width_for(max_factor, add, shift, max_abs_level) is Direct ==> -i32::MAX <= level * factor
            && level * factor + add <= i32::MAX,
        !(width_for(max_factor, add, shift, max_abs_level) is Wide) ==> 0 < max_factor <= i32::MAX
            && shift <= 16 && add <= p2(shift),
        0 < max_factor <= i32::MAX && shift <= 16 && add <= p2(shift) ==> !(width_for(
            max_factor,
            add,
            shift,
            max_abs_level,
        ) is Wide),
{
    let a = clipped_max_abs(max_abs_level);
    if width_for(max_factor, add, shift, max_abs_level) is Direct {
        assert(-(a * max_factor) <= level * factor <= a * max_factor) by (nonlinear_arith)
            requires
                -a <= level <= a,
                0 <= factor <= max_factor,
        ;
    }
}

/// Division that rounds up gives the least number of parts that is enough.
pub proof fn rounding_up_is_the_least_cover(n: int, d: int)
    requires
        0 < d,
    ensures
        d * (ceil_div(n, d) - 1) < n <= d * ceil_div(n, d),
{
    vstd::arithmetic::div_mod::lemma_fundamental_div_mod(-n, d);
    let q = (-n) / d;
    let r = (-n) % d;
    assert(d * (-q - 1) == -(d * q) - d && d * (-q) == -(d * q)) by (nonlinear_arith);
    assert(-n == d * q + r);
}

/// Narrow blocks hold the dequantised levels in their order, and what lies behind them stays.
pub proof fn narrow_blocks_keep_their_order<S: Coeff>(
    levels: Seq<i32>,
    n: int,
    p: DequantParams,
    before: Seq<S>,
    out: Seq<S>,
    i: int,
    level: int,
)
    requires
        block_is(out, before, level_count(levels, n), clip_dequantized(levels, p)),
        0 <= i < before.len(),
        i < levels.len(),
        -32768 <= levels[i] <= 32767 ==> level == levels[i],
        levels[i] < -32768 ==> level == -32768,
        levels[i] > 32767 ==> level == 32767,
    ensures
        i < n * n ==> out[i].value() == dequant_value(
            level,
            p.factor as int,
            p.add as int,
            p.shift as int,
        ),
        i >= n * n ==> out[i] == before[i],
        out.len() == before.len(),
{
    if i < n * n {
        assert(out[i].value() == clip_dequantized(levels, p)(i));
    }
}

} // verus!
