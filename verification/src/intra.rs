//! Intra prediction of square blocks from the neighbouring samples above and to the left.
//!
//! `above[0]` and `left[0]` are the corner sample; `above[1 + x]` runs along the row above the block
//! and on to its right, `left[1 + y]` down the column left of it and on below.
use vstd::prelude::*;
use crate::arith::{
    abs_int, asr, clip3, clip3_i32, lemma_asr_bounds, lemma_asr_exact, lemma_p2_mono, lemma_p2_pos,
    lemma_p2_values, lemma_row_major, min_int, nearest, p2, pow2_i32, shr_i32,
};

verus! {

pub const PLANAR: u8 = 0;

pub const DC: u8 = 1;

/// The block sizes that prediction supports.
pub open spec fn block_size(n: int) -> bool {
    n == 2 || n == 4 || n == 8 || n == 16 || n == 32
}

pub fn supported_n(n: usize) -> (r: bool)
    ensures
        r == block_size(n as int),
{
    n == 2 || n == 4 || n == 8 || n == 16 || n == 32
}

/// The mode exists and the block size is supported.
pub fn supported_predictor(mode: u8, n: usize) -> (r: bool)
    ensures
        r == (block_size(n as int) && mode <= 34),
{
    supported_n(n) && (mode == PLANAR || mode == DC || (2 <= mode && mode <= 34))
}

pub open spec fn log2_block(n: int) -> int {
    if n == 2 {
        1
    } else if n == 4 {
        2
    } else if n == 8 {
        3
    } else if n == 16 {
        4
    } else {
        5
    }
}

fn log2_block_of(n: usize) -> (r: u32)
    requires
        block_size(n as int),
    ensures
        r == log2_block(n as int),
        n == p2(r as int),
        1 <= r <= 5,
{
    proof {
        lemma_p2_values();
    }
    if n == 2 {
        1
    } else if n == 4 {
        2
    } else if n == 8 {
        3
    } else if n == 16 {
        4
    } else {
        5
    }
}

/// Displacement of an angular mode, in 1/32 samples per row or column. The 33 directions mirror
/// about the diagonal mode 18, and each half mirrors about its axis (modes 10 and 26).
pub open spec fn pred_angle(mode: int) -> int {
    let d = if mode < 18 {
        10 - mode
    } else {
        mode - 26
    };
    let a = if d < 0 {
        -d
    } else {
        d
    };
    let m = angle_step(a);
    if d < 0 {
        -m
    } else {
        m
    }
}

/// Displacement of the direction `a` steps away from its axis.
pub open spec fn angle_step(a: int) -> int {
    if a == 0 {
        0
    } else if a == 1 {
        2
    } else if a == 2 {
        5
    } else if a == 3 {
        9
    } else if a == 4 {
        13
    } else if a == 5 {
        17
    } else if a == 6 {
        21
    } else if a == 7 {
        26
    } else {
        32
    }
}

/// `256 * 32` over the displacement, rounded: the step along the side neighbours for each sample
/// that the main reference is extended backwards.
pub open spec fn inverse_step(a: int) -> int {
    if a == 1 {
        4096
    } else if a == 2 {
        1638
    } else if a == 3 {
        910
    } else if a == 4 {
        630
    } else if a == 5 {
        482
    } else if a == 6 {
        390
    } else if a == 7 {
        315
    } else {
        256
    }
}

/// The inverse displacement of a mode with negative displacement; it is negative itself.
pub open spec fn inv_angle(mode: int) -> int {
    let a = if mode < 18 {
        mode - 10
    } else {
        26 - mode
    };
    -inverse_step(a)
}

fn angle_step_of(a: i32) -> (r: i32)
    requires
        0 <= a <= 8,
    ensures
        r == angle_step(a as int),
        0 <= r <= 32,
{
    match a {
        0 => 0,
        1 => 2,
        2 => 5,
        3 => 9,
        4 => 13,
        5 => 17,
        6 => 21,
        7 => 26,
        _ => 32,
    }
}

fn inverse_step_of(a: i32) -> (r: i32)
    requires
        1 <= a <= 8,
    ensures
        r == inverse_step(a as int),
        256 <= r <= 4096,
{
    match a {
        1 => 4096,
        2 => 1638,
        3 => 910,
        4 => 630,
        5 => 482,
        6 => 390,
        7 => 315,
        _ => 256,
    }
}

fn pred_angle_of(mode: u8) -> (r: i32)
    requires
        2 <= mode <= 34,
    ensures
        r == pred_angle(mode as int),
        -32 <= r <= 32,
{
    let d: i32 = if mode < 18 {
        10 - mode as i32
    } else {
        mode as i32 - 26
    };
    if d < 0 {
        -angle_step_of(-d)
    } else {
        angle_step_of(d)
    }
}

fn inv_angle_of(mode: u8) -> (r: i32)
    requires
        2 <= mode <= 34,
        pred_angle(mode as int) < 0,
    ensures
        r == inv_angle(mode as int),
        -4096 <= r <= -256,
{
    let a: i32 = if mode < 18 {
        mode as i32 - 10
    } else {
        26 - mode as i32
    };
    -inverse_step_of(a)
}

/// Sample `(x, y)` of the planar prediction: the average of a horizontal and a vertical ramp.
pub open spec fn planar_sample(above: Seq<u16>, left: Seq<u16>, n: int, x: int, y: int) -> int {
    asr(
        (n - 1 - x) * left[y + 1] + (x + 1) * above[n + 1] + (n - 1 - y) * above[x + 1] + (y + 1)
            * left[n + 1] + n,
        log2_block(n) + 1,
    )
}

/// Sum of the first `k` samples above the block and of the first `k` left of it.
pub open spec fn border_sum(above: Seq<u16>, left: Seq<u16>, k: int) -> int
    decreases k,
{
    if k <= 0 {
        0
    } else {
        border_sum(above, left, k - 1) + above[k] + left[k]
    }
}

pub open spec fn dc_value(above: Seq<u16>, left: Seq<u16>, n: int) -> int {
    asr(border_sum(above, left, n) + n, log2_block(n) + 1)
}

/// Sample `(x, y)` of the DC prediction. Small luma blocks are smoothed along their two borders.
pub open spec fn dc_sample(
    above: Seq<u16>,
    left: Seq<u16>,
    n: int,
    is_luma: bool,
    x: int,
    y: int,
) -> int {
    let dc = dc_value(above, left, n);
    if !is_luma || n >= 32 {
        dc
    } else if x == 0 && y == 0 {
        asr(left[1] + 2 * dc + above[1] + 2, 2)
    } else if y == 0 {
        asr(above[x + 1] + 3 * dc + 2, 2)
    } else if x == 0 {
        asr(left[y + 1] + 3 * dc + 2, 2)
    } else {
        dc
    }
}

pub open spec fn max_value(bit_depth: int) -> int {
    p2(bit_depth) - 1
}

/// Sample `(x, y)` of the pure vertical prediction. Small luma blocks follow the left neighbours in
/// their first column.
pub open spec fn vertical_sample(
    above: Seq<u16>,
    left: Seq<u16>,
    n: int,
    is_luma: bool,
    bit_depth: int,
    x: int,
    y: int,
) -> int {
    if is_luma && n < 32 && x == 0 {
        clip3(0, max_value(bit_depth), above[1] + asr(left[y + 1] - above[0], 1))
    } else {
        above[x + 1] as int
    }
}

/// Sample `(x, y)` of the pure horizontal prediction; the mirror image of the vertical one.
pub open spec fn horizontal_sample(
    above: Seq<u16>,
    left: Seq<u16>,
    n: int,
    is_luma: bool,
    bit_depth: int,
    x: int,
    y: int,
) -> int {
    vertical_sample(left, above, n, is_luma, bit_depth, y, x)
}

/// Reference sample `t` of an angular mode: along the main neighbours, and for negative `t` along
/// the side neighbours, projected by the inverse displacement.
pub open spec fn angular_ref(mode: int, main: Seq<u16>, side: Seq<u16>, n: int, t: int) -> int {
    if t >= 0 {
        main[t] as int
    } else {
        side[min_int(asr(t * inv_angle(mode) + 128, 8), 2 * n)] as int
    }
}

/// Sample `u` of line `v`, where lines run along the main neighbours.
pub open spec fn angular_line_sample(
    mode: int,
    main: Seq<u16>,
    side: Seq<u16>,
    n: int,
    bit_depth: int,
    u: int,
    v: int,
) -> int {
    let pos = (v + 1) * pred_angle(mode);
    let i = asr(pos, 5);
    let f = pos % 32;
    let r0 = angular_ref(mode, main, side, n, u + i + 1);
    let value = if f == 0 {
        r0
    } else {
        asr((32 - f) * r0 + f * angular_ref(mode, main, side, n, u + i + 2) + 16, 5)
    };
    clip3(0, max_value(bit_depth), value)
}

/// Sample `(x, y)` of an angular prediction: modes from 18 on run along the samples above, the
/// others along those on the left.
pub open spec fn angular_sample(
    mode: int,
    above: Seq<u16>,
    left: Seq<u16>,
    n: int,
    bit_depth: int,
    x: int,
    y: int,
) -> int {
    if mode >= 18 {
        angular_line_sample(mode, above, left, n, bit_depth, x, y)
    } else {
        angular_line_sample(mode, left, above, n, bit_depth, y, x)
    }
}

/// Sample `(x, y)` of the prediction in any mode.
pub open spec fn predicted(
    mode: int,
    above: Seq<u16>,
    left: Seq<u16>,
    n: int,
    is_luma: bool,
    bit_depth: int,
    x: int,
    y: int,
) -> int {
    if mode == PLANAR {
        planar_sample(above, left, n, x, y)
    } else if mode == DC {
        dc_sample(above, left, n, is_luma, x, y)
    } else if mode == 10 {
        horizontal_sample(above, left, n, is_luma, bit_depth, x, y)
    } else if mode == 26 {
        vertical_sample(above, left, n, is_luma, bit_depth, x, y)
    } else {
        angular_sample(mode, above, left, n, bit_depth, x, y)
    }
}

/// The neighbours are there for twice the extent of the block.
pub open spec fn borders_ok(above: Seq<u16>, left: Seq<u16>, n: int) -> bool {
    above.len() > 2 * n && left.len() > 2 * n
}

/// The neighbours are there as far as the block reaches.
pub open spec fn sides_ok(above: Seq<u16>, left: Seq<u16>, n: int) -> bool {
    above.len() > n && left.len() > n
}

/// The neighbours are there as far as a mode looks.
pub open spec fn neighbours_ok(mode: int, above: Seq<u16>, left: Seq<u16>, n: int) -> bool {
    if mode == 1 || mode == 10 || mode == 26 {
        sides_ok(above, left, n)
    } else {
        borders_ok(above, left, n)
    }
}

/// The first `n * n` places of `out` hold `f(x, y)` row by row; the rest is as in `before`.
pub open spec fn block_holds(
    out: Seq<u16>,
    before: Seq<u16>,
    n: int,
    f: spec_fn(int, int) -> int,
) -> bool {
    &&& out.len() == before.len()
    &&& forall|i: int| 0 <= i < n * n ==> #[trigger] out[i] == f(i % n, i / n)
    &&& forall|i: int| n * n <= i < out.len() ==> #[trigger] out[i] == before[i]
}

proof fn lemma_planar_range(above: Seq<u16>, left: Seq<u16>, n: int, x: int, y: int)
    requires
        block_size(n),
        borders_ok(above, left, n),
        0 <= x < n,
        0 <= y < n,
    ensures
        0 <= planar_sample(above, left, n, x, y) <= 65535,
        0 <= (n - 1 - x) * left[y + 1] <= 31 * 65535,
        0 <= (x + 1) * above[n + 1] <= 32 * 65535,
        0 <= (n - 1 - y) * above[x + 1] <= 31 * 65535,
        0 <= (y + 1) * left[n + 1] <= 32 * 65535,
{
    let a = left[y + 1] as int;
    let b = above[n + 1] as int;
    let c = above[x + 1] as int;
    let d = left[n + 1] as int;
    assert(0 <= (n - 1 - x) * a <= (n - 1 - x) * 65535 && 0 <= (x + 1) * b <= (x + 1) * 65535)
        by (nonlinear_arith)
        requires
            0 <= x < n,
            0 <= a <= 65535,
            0 <= b <= 65535,
    ;
    assert(0 <= (n - 1 - y) * c <= (n - 1 - y) * 65535 && 0 <= (y + 1) * d <= (y + 1) * 65535)
        by (nonlinear_arith)
        requires
            0 <= y < n,
            0 <= c <= 65535,
            0 <= d <= 65535,
    ;
    lemma_p2_values();
    let s = (n - 1 - x) * a + (x + 1) * b + (n - 1 - y) * c + (y + 1) * d + n;
    assert(s < 65536 * (2 * n));
    assert(p2(log2_block(n) + 1) == 2 * n);
    lemma_asr_bounds(s, log2_block(n) + 1, 0, 65536);
}

/// One sample of the planar prediction.
fn planar_at(above: &[u16], left: &[u16], n: usize, x: usize, y: usize, shift: u32) -> (r: u16)
    requires
        block_size(n as int),
        borders_ok(above@, left@, n as int),
        x < n,
        y < n,
        shift == log2_block(n as int) + 1,
    ensures
        r == planar_sample(above@, left@, n as int, x as int, y as int),
{
    proof {
        lemma_planar_range(above@, left@, n as int, x as int, y as int);
    }
    let h: i32 = (n - 1 - x) as i32 * left[y + 1] as i32 + (x + 1) as i32 * above[n + 1] as i32;
    let v: i32 = (n - 1 - y) as i32 * above[x + 1] as i32 + (y + 1) as i32 * left[n + 1] as i32;
    shr_i32(h + v + n as i32, shift) as u16
}

pub open spec fn planar_block(above: Seq<u16>, left: Seq<u16>, n: int) -> spec_fn(int, int) -> int {
    |x: int, y: int| planar_sample(above, left, n, x, y)
}

pub fn predict_planar(above: &[u16], left: &[u16], n: usize, out: &mut [u16])
    requires
        block_size(n as int),
        borders_ok(above@, left@, n as int),
        old(out).len() >= n * n,
    ensures
        block_holds(final(out)@, old(out)@, n as int, planar_block(above@, left@, n as int)),
{
    let shift: u32 = log2_block_of(n) + 1;
    let ghost f = planar_block(above@, left@, n as int);
    let ghost before = out@;
    assert(0 * n == 0) by (nonlinear_arith);
    for y in 0..n
        invariant
            block_size(n as int),
            borders_ok(above@, left@, n as int),
            before.len() >= n * n,
            shift == log2_block(n as int) + 1,
            f == planar_block(above@, left@, n as int),
            out.len() == before.len(),
            forall|i: int|
                0 <= i < y * n ==> #[trigger] out@[i] == f(i % n as int, i / n as int),
            forall|i: int| y * n <= i < out.len() ==> #[trigger] out@[i] == before[i],
    {
        for x in 0..n
            invariant
                block_size(n as int),
                borders_ok(above@, left@, n as int),
                before.len() >= n * n,
                y < n,
                shift == log2_block(n as int) + 1,
                f == planar_block(above@, left@, n as int),
                out.len() == before.len(),
                forall|i: int|
                    0 <= i < y * n + x ==> #[trigger] out@[i] == f(i % n as int, i / n as int),
                forall|i: int| y * n + x <= i < out.len() ==> #[trigger] out@[i] == before[i],
        {
            proof {
                lemma_row_major(y as int, x as int, n as int, n as int);
                assert(0 <= y * n) by (nonlinear_arith);
            }
            out[y * n + x] = planar_at(above, left, n, x, y, shift);
        }
        assert(y * n + n == (y + 1) * n) by (nonlinear_arith);
    }
}

/// The sum of the samples next to the block.
fn border_sum_of(above: &[u16], left: &[u16], n: usize) -> (r: i32)
    requires
        block_size(n as int),
        sides_ok(above@, left@, n as int),
    ensures
        r == border_sum(above@, left@, n as int),
        0 <= r <= 131070 * n,
{
    let mut sum: i32 = 0;
    for k in 0..n
        invariant
            block_size(n as int),
            sides_ok(above@, left@, n as int),
            sum == border_sum(above@, left@, k as int),
            0 <= sum <= 131070 * k,
    {
        sum = sum + (above[k + 1] as i32 + left[k + 1] as i32);
    }
    sum
}

fn dc_value_of(above: &[u16], left: &[u16], n: usize) -> (r: u16)
    requires
        block_size(n as int),
        sides_ok(above@, left@, n as int),
    ensures
        r == dc_value(above@, left@, n as int),
{
    let sum: i32 = border_sum_of(above, left, n);
    let shift: u32 = log2_block_of(n) + 1;
    proof {
        lemma_p2_values();
        lemma_asr_bounds(sum + n, shift as int, 0, 65536);
    }
    shr_i32(sum + n as i32, shift) as u16
}

fn dc_at(above: &[u16], left: &[u16], n: usize, is_luma: bool, dc: u16, x: usize, y: usize) -> (r: u16)
    requires
        block_size(n as int),
        sides_ok(above@, left@, n as int),
        dc == dc_value(above@, left@, n as int),
        x < n,
        y < n,
    ensures
        r == dc_sample(above@, left@, n as int, is_luma, x as int, y as int),
{
    proof {
        lemma_p2_values();
    }
    let d: i32 = dc as i32;
    if !is_luma || n >= 32 {
        dc
    } else if x == 0 && y == 0 {
        shr_i32(left[1] as i32 + 2 * d + above[1] as i32 + 2, 2) as u16
    } else if y == 0 {
        shr_i32(above[x + 1] as i32 + 3 * d + 2, 2) as u16
    } else if x == 0 {
        shr_i32(left[y + 1] as i32 + 3 * d + 2, 2) as u16
    } else {
        dc
    }
}

pub open spec fn dc_block(
    above: Seq<u16>,
    left: Seq<u16>,
    n: int,
    is_luma: bool,
) -> spec_fn(int, int) -> int {
    |x: int, y: int| dc_sample(above, left, n, is_luma, x, y)
}

pub fn predict_dc(above: &[u16], left: &[u16], n: usize, is_luma: bool, out: &mut [u16])
    requires
        block_size(n as int),
        sides_ok(above@, left@, n as int),
        old(out).len() >= n * n,
    ensures
        block_holds(final(out)@, old(out)@, n as int, dc_block(above@, left@, n as int, is_luma)),
{
    let dc: u16 = dc_value_of(above, left, n);
    let ghost f = dc_block(above@, left@, n as int, is_luma);
    let ghost before = out@;
    assert(0 * n == 0) by (nonlinear_arith);
    for y in 0..n
        invariant
            block_size(n as int),
            sides_ok(above@, left@, n as int),
            before.len() >= n * n,
            dc == dc_value(above@, left@, n as int),
            f == dc_block(above@, left@, n as int, is_luma),
            out.len() == before.len(),
            forall|i: int|
                0 <= i < y * n ==> #[trigger] out@[i] == f(i % n as int, i / n as int),
            forall|i: int| y * n <= i < out.len() ==> #[trigger] out@[i] == before[i],
    {
        for x in 0..n
            invariant
                block_size(n as int),
                sides_ok(above@, left@, n as int),
                before.len() >= n * n,
                y < n,
                dc == dc_value(above@, left@, n as int),
                f == dc_block(above@, left@, n as int, is_luma),
                out.len() == before.len(),
                forall|i: int|
                    0 <= i < y * n + x ==> #[trigger] out@[i] == f(i % n as int, i / n as int),
                forall|i: int| y * n + x <= i < out.len() ==> #[trigger] out@[i] == before[i],
        {
            proof {
                lemma_row_major(y as int, x as int, n as int, n as int);
                assert(0 <= y * n) by (nonlinear_arith);
            }
            out[y * n + x] = dc_at(above, left, n, is_luma, dc, x, y);
        }
        assert(y * n + n == (y + 1) * n) by (nonlinear_arith);
    }
}

fn max_value_of(bit_depth: u8) -> (r: i32)
    requires
        bit_depth <= 16,
    ensures
        r == max_value(bit_depth as int),
        0 <= r <= 65535,
{
    proof {
        lemma_p2_values();
        lemma_p2_mono(bit_depth as int, 16);
        lemma_p2_pos(bit_depth as int);
    }
    pow2_i32(bit_depth as u32) - 1
}

/// One sample of the pure vertical prediction.
fn vertical_at(
    above: &[u16],
    left: &[u16],
    n: usize,
    is_luma: bool,
    bit_depth: u8,
    max: i32,
    x: usize,
    y: usize,
) -> (r: u16)
    requires
        block_size(n as int),
        sides_ok(above@, left@, n as int),
        max == max_value(bit_depth as int),
        0 <= max <= 65535,
        x < n,
        y < n,
    ensures
        r == vertical_sample(
            above@,
            left@,
            n as int,
            is_luma,
            bit_depth as int,
            x as int,
            y as int,
        ),
{
    proof {
        lemma_p2_values();
    }
    if is_luma && n < 32 && x == 0 {
        let step: i32 = shr_i32(left[y + 1] as i32 - above[0] as i32, 1);
        clip3_i32(0, max, above[1] as i32 + step) as u16
    } else {
        above[x + 1]
    }
}

pub open spec fn vertical_block(
    above: Seq<u16>,
    left: Seq<u16>,
    n: int,
    is_luma: bool,
    bit_depth: int,
) -> spec_fn(int, int) -> int {
    |x: int, y: int| vertical_sample(above, left, n, is_luma, bit_depth, x, y)
}

/// Pure vertical prediction.
pub fn predict_mode26(
    above: &[u16],
    left: &[u16],
    n: usize,
    is_luma: bool,
    bit_depth: u8,
    out: &mut [u16],
)
    requires
        block_size(n as int),
        sides_ok(above@, left@, n as int),
        bit_depth <= 16,
        old(out).len() >= n * n,
    ensures
        block_holds(
            final(out)@,
            old(out)@,
            n as int,
            vertical_block(above@, left@, n as int, is_luma, bit_depth as int),
        ),
{
    let max: i32 = max_value_of(bit_depth);
    let ghost f = vertical_block(above@, left@, n as int, is_luma, bit_depth as int);
    let ghost before = out@;
    assert(0 * n == 0) by (nonlinear_arith);
    for y in 0..n
        invariant
            block_size(n as int),
            sides_ok(above@, left@, n as int),
            before.len() >= n * n,
            max == max_value(bit_depth as int),
            0 <= max <= 65535,
            f == vertical_block(above@, left@, n as int, is_luma, bit_depth as int),
            out.len() == before.len(),
            forall|i: int|
                0 <= i < y * n ==> #[trigger] out@[i] == f(i % n as int, i / n as int),
            forall|i: int| y * n <= i < out.len() ==> #[trigger] out@[i] == before[i],
    {
        for x in 0..n
            invariant
                block_size(n as int),
                sides_ok(above@, left@, n as int),
                before.len() >= n * n,
                y < n,
                max == max_value(bit_depth as int),
                0 <= max <= 65535,
                f == vertical_block(above@, left@, n as int, is_luma, bit_depth as int),
                out.len() == before.len(),
                forall|i: int|
                    0 <= i < y * n + x ==> #[trigger] out@[i] == f(i % n as int, i / n as int),
                forall|i: int| y * n + x <= i < out.len() ==> #[trigger] out@[i] == before[i],
        {
            proof {
                lemma_row_major(y as int, x as int, n as int, n as int);
                assert(0 <= y * n) by (nonlinear_arith);
            }
            out[y * n + x] = vertical_at(above, left, n, is_luma, bit_depth, max, x, y);
        }
        assert(y * n + n == (y + 1) * n) by (nonlinear_arith);
    }
}

pub open spec fn horizontal_block(
    above: Seq<u16>,
    left: Seq<u16>,
    n: int,
    is_luma: bool,
    bit_depth: int,
) -> spec_fn(int, int) -> int {
    |x: int, y: int| horizontal_sample(above, left, n, is_luma, bit_depth, x, y)
}

/// Pure horizontal prediction.
pub fn predict_mode10(
    above: &[u16],
    left: &[u16],
    n: usize,
    is_luma: bool,
    bit_depth: u8,
    out: &mut [u16],
)
    requires
        block_size(n as int),
        sides_ok(above@, left@, n as int),
        bit_depth <= 16,
        old(out).len() >= n * n,
    ensures
        block_holds(
            final(out)@,
            old(out)@,
            n as int,
            horizontal_block(above@, left@, n as int, is_luma, bit_depth as int),
        ),
{
    let max: i32 = max_value_of(bit_depth);
    let ghost f = horizontal_block(above@, left@, n as int, is_luma, bit_depth as int);
    let ghost before = out@;
    assert(0 * n == 0) by (nonlinear_arith);
    for y in 0..n
        invariant
            block_size(n as int),
            sides_ok(above@, left@, n as int),
            before.len() >= n * n,
            max == max_value(bit_depth as int),
            0 <= max <= 65535,
            f == horizontal_block(above@, left@, n as int, is_luma, bit_depth as int),
            out.len() == before.len(),
            forall|i: int|
                0 <= i < y * n ==> #[trigger] out@[i] == f(i % n as int, i / n as int),
            forall|i: int| y * n <= i < out.len() ==> #[trigger] out@[i] == before[i],
    {
        for x in 0..n
            invariant
                block_size(n as int),
                sides_ok(above@, left@, n as int),
                before.len() >= n * n,
                y < n,
                max == max_value(bit_depth as int),
                0 <= max <= 65535,
                f == horizontal_block(above@, left@, n as int, is_luma, bit_depth as int),
                out.len() == before.len(),
                forall|i: int|
                    0 <= i < y * n + x ==> #[trigger] out@[i] == f(i % n as int, i / n as int),
                forall|i: int| y * n + x <= i < out.len() ==> #[trigger] out@[i] == before[i],
        {
            proof {
                lemma_row_major(y as int, x as int, n as int, n as int);
                assert(0 <= y * n) by (nonlinear_arith);
            }
            out[y * n + x] = vertical_at(left, above, n, is_luma, bit_depth, max, y, x);
        }
        assert(y * n + n == (y + 1) * n) by (nonlinear_arith);
    }
}

/// How far an angular mode reaches: the first reference before the main neighbours that it needs.
pub open spec fn first_ref(mode: int, n: int) -> int {
    if pred_angle(mode) < 0 {
        asr(n * pred_angle(mode), 5)
    } else {
        0
    }
}

proof fn lemma_angular_reach(mode: int, n: int, u: int, v: int)
    requires
        block_size(n),
        2 <= mode <= 34,
        0 <= u < n,
        0 <= v < n,
    ensures
        ({
            let pos = (v + 1) * pred_angle(mode);
            let i = asr(pos, 5);
            &&& -n <= first_ref(mode, n) <= 0
            &&& first_ref(mode, n) <= u + i + 1 <= 2 * n
            &&& pos % 32 != 0 ==> u + i + 2 <= 2 * n
            &&& -1024 <= pos <= 1024
        }),
{
    let a = pred_angle(mode);
    assert(-32 <= a <= 32);
    let pos = (v + 1) * a;
    lemma_p2_values();
    assert(a < 0 ==> n * a <= pos <= 0) by (nonlinear_arith)
        requires
            0 <= v < n,
            pos == (v + 1) * a,
    ;
    assert(a >= 0 ==> 0 <= pos <= 32 * n) by (nonlinear_arith)
        requires
            0 <= v < n,
            a <= 32,
            pos == (v + 1) * a,
    ;
    assert(-32 * n <= n * a && (a < 0 ==> n * a <= 0)) by (nonlinear_arith)
        requires
            -32 <= a,
            0 <= n,
    ;
}

/// The reference samples of an angular mode: index `n + t` holds reference `t`.
fn prepare_angular_refs(mode: u8, main: &[u16], side: &[u16], n: usize) -> (refs: [i32; 97])
    requires
        block_size(n as int),
        borders_ok(main@, side@, n as int),
        2 <= mode <= 34,
    ensures
        forall|t: int|
            first_ref(mode as int, n as int) <= t <= 2 * n ==> #[trigger] refs@[n + t]
                == angular_ref(mode as int, main@, side@, n as int, t),
{
    let angle: i32 = pred_angle_of(mode);
    let mut refs: [i32; 97] = [0; 97];
    for t in 0..(2 * n + 1)
        invariant
            block_size(n as int),
            borders_ok(main@, side@, n as int),
            2 <= mode <= 34,
            forall|j: int|
                0 <= j < t ==> #[trigger] refs@[n + j] == angular_ref(
                    mode as int,
                    main@,
                    side@,
                    n as int,
                    j,
                ),
    {
        refs[n + t] = main[t] as i32;
    }
    if angle < 0 {
        let inv: i32 = inv_angle_of(mode);
        proof {
            assert(-32 * n <= n * angle <= 0) by (nonlinear_arith)
                requires
                    -32 <= angle < 0,
                    0 <= n,
            ;
            lemma_p2_values();
        }
        let lim: i32 = shr_i32(n as i32 * angle, 5);
        let mut k: i32 = -1;
        while k >= lim
            invariant
                block_size(n as int),
                borders_ok(main@, side@, n as int),
                2 <= mode <= 34,
                inv == inv_angle(mode as int),
                -4096 <= inv <= -256,
                lim == first_ref(mode as int, n as int),
                -n <= lim <= 0,
                -n - 1 <= k <= -1,
                forall|j: int|
                    k < j <= 2 * n ==> #[trigger] refs@[n + j] == angular_ref(
                        mode as int,
                        main@,
                        side@,
                        n as int,
                        j,
                    ),
            decreases k - lim + 1,
        {
            proof {
                assert(256 <= k * inv <= 32 * 4096) by (nonlinear_arith)
                    requires
                        -32 <= k <= -1,
                        -4096 <= inv <= -256,
                ;
                lemma_p2_values();
            }
            let far: i32 = shr_i32(k * inv + 128, 8);
            let idx: i32 = if far <= 2 * n as i32 {
                far
            } else {
                2 * n as i32
            };
            refs[(k + n as i32) as usize] = side[idx as usize] as i32;
            k = k - 1;
        }
    }
    refs
}

/// One sample along an angular line.
fn angular_at(
    mode: u8,
    refs: &[i32; 97],
    n: usize,
    angle: i32,
    bit_depth: u8,
    max: i32,
    u: usize,
    v: usize,
    Ghost(main): Ghost<Seq<u16>>,
    Ghost(side): Ghost<Seq<u16>>,
) -> (r: u16)
    requires
        block_size(n as int),
        borders_ok(main, side, n as int),
        2 <= mode <= 34,
        angle == pred_angle(mode as int),
        max == max_value(bit_depth as int),
        0 <= max <= 65535,
        u < n,
        v < n,
        forall|t: int|
            first_ref(mode as int, n as int) <= t <= 2 * n ==> #[trigger] refs@[n + t]
                == angular_ref(mode as int, main, side, n as int, t),
    ensures
        r == angular_line_sample(
            mode as int,
            main,
            side,
            n as int,
            bit_depth as int,
            u as int,
            v as int,
        ),
{
    proof {
        lemma_angular_reach(mode as int, n as int, u as int, v as int);
        lemma_p2_values();
    }
    let pos: i32 = (v as i32 + 1) * angle;
    let i: i32 = shr_i32(pos, 5);
    let f: i32 = pos - 32 * i;
    let t: i32 = u as i32 + i + 1;
    assert(f == pos % 32);
    proof {
        lemma_ref_range(mode as int, main, side, n as int, t as int);
        if f != 0 {
            lemma_ref_range(mode as int, main, side, n as int, t + 1);
        }
    }
    assert(refs@[n + t] == angular_ref(mode as int, main, side, n as int, t as int));
    let r0: i32 = refs[(t + n as i32) as usize];
    let value: i32 = if f == 0 {
        r0
    } else {
        assert(refs@[n + (t + 1)] == angular_ref(mode as int, main, side, n as int, t + 1));
        let r1: i32 = refs[(t + 1 + n as i32) as usize];
        proof {
            assert(0 <= (32 - f) * r0 <= 2097120 && 0 <= f * r1 <= 2097120) by (nonlinear_arith)
                requires
                    0 <= f < 32,
                    0 <= r0 <= 65535,
                    0 <= r1 <= 65535,
            ;
        }
        shr_i32((32 - f) * r0 + f * r1 + 16, 5)
    };
    clip3_i32(0, max, value) as u16
}

proof fn lemma_ref_range(mode: int, main: Seq<u16>, side: Seq<u16>, n: int, t: int)
    ensures
        0 <= angular_ref(mode, main, side, n, t) <= 65535,
{
}

pub open spec fn angular_block(
    mode: int,
    above: Seq<u16>,
    left: Seq<u16>,
    n: int,
    bit_depth: int,
) -> spec_fn(int, int) -> int {
    |x: int, y: int| angular_sample(mode, above, left, n, bit_depth, x, y)
}

pub fn predict_angular(
    mode: u8,
    above: &[u16],
    left: &[u16],
    n: usize,
    bit_depth: u8,
    out: &mut [u16],
)
    requires
        block_size(n as int),
        borders_ok(above@, left@, n as int),
        2 <= mode <= 34,
        bit_depth <= 16,
        old(out).len() >= n * n,
    ensures
        block_holds(
            final(out)@,
            old(out)@,
            n as int,
            angular_block(mode as int, above@, left@, n as int, bit_depth as int),
        ),
{
    let vertical: bool = mode >= 18;
    let (main, side): (&[u16], &[u16]) = if vertical {
        (above, left)
    } else {
        (left, above)
    };
    let refs: [i32; 97] = prepare_angular_refs(mode, main, side, n);
    let angle: i32 = pred_angle_of(mode);
    let max: i32 = max_value_of(bit_depth);
    let ghost f = angular_block(mode as int, above@, left@, n as int, bit_depth as int);
    let ghost before = out@;
    assert(0 * n == 0) by (nonlinear_arith);
    for y in 0..n
        invariant
            block_size(n as int),
            borders_ok(main@, side@, n as int),
            vertical == (mode >= 18),
            vertical ==> main == above && side == left,
            !vertical ==> main == left && side == above,
            2 <= mode <= 34,
            before.len() >= n * n,
            angle == pred_angle(mode as int),
            max == max_value(bit_depth as int),
            0 <= max <= 65535,
            forall|t: int|
                first_ref(mode as int, n as int) <= t <= 2 * n ==> #[trigger] refs@[n + t]
                    == angular_ref(mode as int, main@, side@, n as int, t),
            f == angular_block(mode as int, above@, left@, n as int, bit_depth as int),
            out.len() == before.len(),
            forall|i: int|
                0 <= i < y * n ==> #[trigger] out@[i] == f(i % n as int, i / n as int),
            forall|i: int| y * n <= i < out.len() ==> #[trigger] out@[i] == before[i],
    {
        for x in 0..n
            invariant
                block_size(n as int),
                borders_ok(main@, side@, n as int),
                vertical == (mode >= 18),
                vertical ==> main == above && side == left,
                !vertical ==> main == left && side == above,
                2 <= mode <= 34,
                before.len() >= n * n,
                y < n,
                angle == pred_angle(mode as int),
                max == max_value(bit_depth as int),
                0 <= max <= 65535,
                forall|t: int|
                    first_ref(mode as int, n as int) <= t <= 2 * n ==> #[trigger] refs@[n + t]
                        == angular_ref(mode as int, main@, side@, n as int, t),
                f == angular_block(mode as int, above@, left@, n as int, bit_depth as int),
                out.len() == before.len(),
                forall|i: int|
                    0 <= i < y * n + x ==> #[trigger] out@[i] == f(i % n as int, i / n as int),
                forall|i: int| y * n + x <= i < out.len() ==> #[trigger] out@[i] == before[i],
        {
            proof {
                lemma_row_major(y as int, x as int, n as int, n as int);
                assert(0 <= y * n) by (nonlinear_arith);
            }
            let (u, v): (usize, usize) = if vertical {
                (x, y)
            } else {
                (y, x)
            };
            let s: u16 = angular_at(
                mode,
                &refs,
                n,
                angle,
                bit_depth,
                max,
                u,
                v,
                Ghost(main@),
                Ghost(side@),
            );
            out[y * n + x] = s;
        }
        assert(y * n + n == (y + 1) * n) by (nonlinear_arith);
    }
}

pub open spec fn predicted_block(
    mode: int,
    above: Seq<u16>,
    left: Seq<u16>,
    n: int,
    is_luma: bool,
    bit_depth: int,
) -> spec_fn(int, int) -> int {
    |x: int, y: int| predicted(mode, above, left, n, is_luma, bit_depth, x, y)
}

/// Predicts an `n` by `n` block into `out[..n * n]`, row by row.
pub fn predict_into(
    mode: u8,
    above: &[u16],
    left: &[u16],
    n: usize,
    is_luma: bool,
    bit_depth: u8,
    out: &mut [u16],
)
    requires
        block_size(n as int),
        mode <= 34,
        neighbours_ok(mode as int, above@, left@, n as int),
        bit_depth <= 16,
        old(out).len() >= n * n,
    ensures
        block_holds(
            final(out)@,
            old(out)@,
            n as int,
            predicted_block(mode as int, above@, left@, n as int, is_luma, bit_depth as int),
        ),
{
    if mode == PLANAR {
        predict_planar(above, left, n, out);
    } else if mode == DC {
        predict_dc(above, left, n, is_luma, out);
    } else if mode == 10 {
        predict_mode10(above, left, n, is_luma, bit_depth, out);
    } else if mode == 26 {
        predict_mode26(above, left, n, is_luma, bit_depth, out);
    } else {
        predict_angular(mode, above, left, n, bit_depth, out);
    }
}

/// The mode that predicts the transposed block from transposed neighbours.
pub open spec fn transposed_mode(mode: int) -> int {
    if mode < 2 {
        mode
    } else {
        36 - mode
    }
}

proof fn lemma_border_sum_swap(above: Seq<u16>, left: Seq<u16>, k: int)
    ensures
        border_sum(above, left, k) == border_sum(left, above, k),
    decreases k,
{
    if k > 0 {
        lemma_border_sum_swap(above, left, k - 1);
    }
}

/// Swapping the neighbours above and to the left, with the mirrored mode, transposes the
/// prediction.
pub proof fn prediction_transposes(
    mode: int,
    above: Seq<u16>,
    left: Seq<u16>,
    n: int,
    is_luma: bool,
    bit_depth: int,
    x: int,
    y: int,
)
    requires
        block_size(n),
        0 <= mode <= 34,
        neighbours_ok(mode, above, left, n),
        above[0] == left[0],
        0 <= x < n,
        0 <= y < n,
    ensures
        predicted(mode, above, left, n, is_luma, bit_depth, x, y) == predicted(
            transposed_mode(mode),
            left,
            above,
            n,
            is_luma,
            bit_depth,
            y,
            x,
        ),
{
    lemma_border_sum_swap(above, left, n);
    if mode == 18 {
        lemma_p2_values();
        let a = pred_angle(18);
        let i = inv_angle(18);
        let d = x - y;
        assert((y + 1) * a == -32 * (y + 1) && (x + 1) * a == -32 * (x + 1)) by (nonlinear_arith)
            requires
                a == -32,
        ;
        assert(d * i == -256 * d && (-d) * i == 256 * d) by (nonlinear_arith)
            requires
                i == -256,
        ;
        lemma_asr_exact(-(y + 1), 5);
        lemma_asr_exact(-(x + 1), 5);
        let e = p2(5);
        assert((-(y + 1)) * e == -32 * (y + 1) && (-(x + 1)) * e == -32 * (x + 1)) by (nonlinear_arith)
            requires
                e == 32,
        ;
        if d != 0 {
            let m = if d < 0 {
                -d
            } else {
                d
            };
            lemma_asr_bounds(256 * m + 128, 8, m, m + 1);
        }
        assert(x + asr((y + 1) * a, 5) + 1 == d && y + asr((x + 1) * a, 5) + 1 == -d);
        assert(angular_ref(18, above, left, n, d) == (if d >= 0 {
            above[d]
        } else {
            left[-d]
        }));
        assert(angular_ref(18, left, above, n, -d) == (if d <= 0 {
            left[-d]
        } else {
            above[d]
        }));
    } else if mode >= 2 {
        assert(pred_angle(mode) == pred_angle(36 - mode));
        assert(inv_angle(mode) == inv_angle(36 - mode));
    }
}

proof fn lemma_border_sum_flat(above: Seq<u16>, left: Seq<u16>, v: int, k: int)
    requires
        0 <= k < above.len(),
        k < left.len(),
        forall|i: int| 0 <= i < above.len() ==> #[trigger] above[i] == v,
        forall|i: int| 0 <= i < left.len() ==> #[trigger] left[i] == v,
    ensures
        border_sum(above, left, k) == 2 * v * k,
    decreases k,
{
    if k > 0 {
        lemma_border_sum_flat(above, left, v, k - 1);
        assert(2 * v * (k - 1) + 2 * v == 2 * v * k) by (nonlinear_arith);
    } else {
        assert(2 * v * 0 == 0);
    }
}

/// Uniform neighbours predict a uniform block of the same value, in every mode.
pub proof fn flat_neighbours_predict_flat(
    mode: int,
    above: Seq<u16>,
    left: Seq<u16>,
    n: int,
    is_luma: bool,
    bit_depth: int,
    v: int,
    x: int,
    y: int,
)
    requires
        block_size(n),
        0 <= mode <= 34,
        neighbours_ok(mode, above, left, n),
        0 <= x < n,
        0 <= y < n,
        0 <= v <= max_value(bit_depth),
        forall|i: int| 0 <= i < above.len() ==> #[trigger] above[i] == v,
        forall|i: int| 0 <= i < left.len() ==> #[trigger] left[i] == v,
    ensures
        predicted(mode, above, left, n, is_luma, bit_depth, x, y) == v,
{
    lemma_p2_values();
    let k = log2_block(n) + 1;
    assert(p2(k) == 2 * n);
    if mode == 0 {
        let s = (n - 1 - x) * v + (x + 1) * v + (n - 1 - y) * v + (y + 1) * v + n;
        assert(s == v * (2 * n) + n) by (nonlinear_arith)
            requires
                s == (n - 1 - x) * v + (x + 1) * v + (n - 1 - y) * v + (y + 1) * v + n,
        ;
        assert(v * (2 * n) <= s < (v + 1) * (2 * n)) by (nonlinear_arith)
            requires
                s == v * (2 * n) + n,
                n >= 1,
        ;
        lemma_asr_bounds(s, k, v, v + 1);
    } else if mode == 1 {
        lemma_border_sum_flat(above, left, v, n);
        let s = 2 * v * n + n;
        assert(v * (2 * n) <= s < (v + 1) * (2 * n)) by (nonlinear_arith)
            requires
                s == 2 * v * n + n,
                n >= 1,
        ;
        lemma_asr_bounds(s, k, v, v + 1);
    } else if mode != 10 && mode != 26 {
        let (main, side, u, w) = if mode >= 18 {
            (above, left, x, y)
        } else {
            (left, above, y, x)
        };
        lemma_angular_reach(mode, n, u, w);
        let pos = (w + 1) * pred_angle(mode);
        let t = u + asr(pos, 5) + 1;
        lemma_flat_ref(mode, main, side, n, v, t);
        let f = pos % 32;
        if f != 0 {
            lemma_flat_ref(mode, main, side, n, v, t + 1);
            assert((32 - f) * v + f * v + 16 == 32 * v + 16) by (nonlinear_arith);
        }
    }
}

proof fn lemma_flat_ref(mode: int, main: Seq<u16>, side: Seq<u16>, n: int, v: int, t: int)
    requires
        block_size(n),
        2 <= mode <= 34,
        borders_ok(main, side, n),
        first_ref(mode, n) <= t <= 2 * n,
        -n <= first_ref(mode, n) <= 0,
        forall|i: int| 0 <= i < main.len() ==> #[trigger] main[i] == v,
        forall|i: int| 0 <= i < side.len() ==> #[trigger] side[i] == v,
    ensures
        angular_ref(mode, main, side, n, t) == v,
{
    if t < 0 {
        let inv = inv_angle(mode);
        assert(256 <= t * inv) by (nonlinear_arith)
            requires
                t <= -1,
                inv <= -256,
        ;
        lemma_p2_values();
        let i = min_int(asr(t * inv + 128, 8), 2 * n);
        assert(side[i] == v);
    }
}

/// Blocks are the powers of two from 2 to 32.
pub proof fn blocks_are_powers_of_two(n: int, k: int)
    ensures
        block_size(n) ==> 1 <= log2_block(n) <= 5 && p2(log2_block(n)) == n,
        1 <= k <= 5 ==> block_size(p2(k)) && log2_block(p2(k)) == k,
{
    lemma_p2_values();
}

/// How far each of the 33 directions moves along the main border per line, in 32nds of a sample.
pub open spec fn displacements() -> Seq<int> {
    seq![
        32, 26, 21, 17, 13, 9, 5, 2, 0, -2, -5, -9, -13, -17, -21, -26, -32, -26, -21, -17, -13, -9,
        -5, -2, 0, 2, 5, 9, 13, 17, 21, 26, 32,
    ]
}

/// Directions 2 to 34 turn from below left to above right in the steps of the table.
pub proof fn directions_have_fixed_displacements(mode: int)
    requires
        2 <= mode <= 34,
    ensures
        pred_angle(mode) == displacements()[mode - 2],
        displacements()[mode - 2] == displacements()[34 - mode],
{
    assert(displacements().len() == 33);
    if mode < 18 {
        assert(mode == 2 || mode == 3 || mode == 4 || mode == 5 || mode == 6 || mode == 7 || mode
            == 8 || mode == 9 || mode == 10 || mode == 11 || mode == 12 || mode == 13 || mode == 14
            || mode == 15 || mode == 16 || mode == 17);
    } else {
        assert(mode == 18 || mode == 19 || mode == 20 || mode == 21 || mode == 22 || mode == 23
            || mode == 24 || mode == 25 || mode == 26 || mode == 27 || mode == 28 || mode == 29
            || mode == 30 || mode == 31 || mode == 32 || mode == 33 || mode == 34);
    }
}

/// `k` steps of `a` come nearer to `v` than any other number of steps.
pub open spec fn nearest_steps(k: int, a: int, v: int) -> bool {
    2 * abs_int(k * a - v) < abs_int(a)
}

/// Before the start of the main border, a direction that leans back meets the side border. The
/// neighbour for position `t` is the one nearest to where the line through `t` crosses it.
pub proof fn side_neighbours_lie_on_the_direction(
    mode: int,
    main: Seq<u16>,
    side: Seq<u16>,
    n: int,
    t: int,
    k: int,
)
    requires
        block_size(n),
        11 <= mode <= 25,
        n * displacements()[mode - 2] < 32 * t,
        t < 0,
        nearest_steps(k, displacements()[mode - 2], 32 * t),
    ensures
        angular_ref(mode, main, side, n, t) == side[k],
        1 <= k <= n,
{
    directions_have_fixed_displacements(mode);
    let a = pred_angle(mode);
    lemma_p2_values();
    if mode == 11 || mode == 25 {
        lemma_crossing(2, 4096, n, -t, k);
    } else if mode == 12 || mode == 24 {
        lemma_crossing(5, 1638, n, -t, k);
    } else if mode == 13 || mode == 23 {
        lemma_crossing(9, 910, n, -t, k);
    } else if mode == 14 || mode == 22 {
        lemma_crossing(13, 630, n, -t, k);
    } else if mode == 15 || mode == 21 {
        lemma_crossing(17, 482, n, -t, k);
    } else if mode == 16 || mode == 20 {
        lemma_crossing(21, 390, n, -t, k);
    } else if mode == 17 || mode == 19 {
        lemma_crossing(26, 315, n, -t, k);
    } else {
        lemma_crossing(32, 256, n, -t, k);
    }
    assert(t * inv_angle(mode) == -t * -inv_angle(mode)) by (nonlinear_arith);
}

proof fn lemma_crossing(a: int, inv: int, n: int, m: int, k: int)
    requires
        block_size(n),
        (a == 2 && inv == 4096) || (a == 5 && inv == 1638) || (a == 9 && inv == 910) || (a == 13
            && inv == 630) || (a == 17 && inv == 482) || (a == 21 && inv == 390) || (a == 26 && inv
            == 315) || (a == 32 && inv == 256),
        32 * m < n * a,
        0 < m,
        2 * abs_int(k * -a + 32 * m) < a,
    ensures
        (m * inv + 128) / 256 == k,
        1 <= k <= n,
{
    assert(k * -a == -(k * a)) by (nonlinear_arith);
    assert(m < 32) by (nonlinear_arith)
        requires
            32 * m < n * a,
            n <= 32,
            0 < a <= 32,
            0 < m,
    ;
    assert(k <= n) by (nonlinear_arith)
        requires
            2 * (k * a - 32 * m) < a,
            32 * m < n * a,
            a > 0,
    ;
    assert(1 <= k) by (nonlinear_arith)
        requires
            2 * (32 * m - k * a) < a,
            m > 0,
            0 < a <= 32,
    ;
    if a == 2 {
        assert(k * a == 2 * k && m * inv == 4096 * m) by (nonlinear_arith)
            requires
                a == 2,
                inv == 4096,
        ;
    } else if a == 5 {
        assert(k * a == 5 * k && m * inv == 1638 * m) by (nonlinear_arith)
            requires
                a == 5,
                inv == 1638,
        ;
    } else if a == 9 {
        assert(k * a == 9 * k && m * inv == 910 * m) by (nonlinear_arith)
            requires
                a == 9,
                inv == 910,
        ;
    } else if a == 13 {
        assert(k * a == 13 * k && m * inv == 630 * m) by (nonlinear_arith)
            requires
                a == 13,
                inv == 630,
        ;
    } else if a == 17 {
        assert(k * a == 17 * k && m * inv == 482 * m) by (nonlinear_arith)
            requires
                a == 17,
                inv == 482,
        ;
    } else if a == 21 {
        assert(k * a == 21 * k && m * inv == 390 * m) by (nonlinear_arith)
            requires
                a == 21,
                inv == 390,
        ;
    } else if a == 26 {
        assert(k * a == 26 * k && m * inv == 315 * m) by (nonlinear_arith)
            requires
                a == 26,
                inv == 315,
        ;
    } else {
        assert(k * a == 32 * k && m * inv == 256 * m) by (nonlinear_arith)
            requires
                a == 32,
                inv == 256,
        ;
    }
}

/// `r` is the neighbour at position `t` of the main border, or, before its start, the one of the
/// side border nearest to the line through `t` that moves by `a` 32nds.
pub open spec fn neighbour_at(a: int, main: Seq<u16>, side: Seq<u16>, t: int, r: int) -> bool {
    if t >= 0 {
        r == main[t]
    } else {
        exists|k: int| #[trigger] nearest_steps(k, a, 32 * t) && r == side[k]
    }
}

/// A sample of an angular block is taken from where its direction meets the border: `i` samples and
/// `f` 32nds along it, by weight from the neighbours before and after, to the nearest. Modes from
/// 18 on go along the row above, the others along the left column.
pub proof fn angular_samples_follow_the_direction(
    mode: int,
    above: Seq<u16>,
    left: Seq<u16>,
    n: int,
    bit_depth: int,
    x: int,
    y: int,
    i: int,
    f: int,
    r0: int,
    r1: int,
)
    requires
        block_size(n),
        2 <= mode <= 34,
        0 <= x < n,
        0 <= y < n,
        0 <= f < 32,
        32 * i + f == ((if mode >= 18 {
            y
        } else {
            x
        }) + 1) * displacements()[mode - 2],
        0 <= r0 < p2(bit_depth),
        mode >= 18 ==> neighbour_at(displacements()[mode - 2], above, left, x + i + 1, r0),
        mode < 18 ==> neighbour_at(displacements()[mode - 2], left, above, y + i + 1, r0),
        f > 0 ==> {
            &&& 0 <= r1 < p2(bit_depth)
            &&& mode >= 18 ==> neighbour_at(
                displacements()[mode - 2],
                above,
                left,
                x + i + 2,
                r1,
            )
            &&& mode < 18 ==> neighbour_at(displacements()[mode - 2], left, above, y + i + 2, r1)
        },
    ensures
        f == 0 ==> angular_sample(mode, above, left, n, bit_depth, x, y) == r0,
        nearest(
            angular_sample(mode, above, left, n, bit_depth, x, y),
            (32 - f) * r0 + f * r1,
            32,
        ),
{
    if mode >= 18 {
        lemma_line_follows(mode, above, left, n, bit_depth, x, y, i, f, r0, r1);
    } else {
        lemma_line_follows(mode, left, above, n, bit_depth, y, x, i, f, r0, r1);
    }
}

proof fn lemma_line_follows(
    mode: int,
    main: Seq<u16>,
    side: Seq<u16>,
    n: int,
    bit_depth: int,
    u: int,
    v: int,
    i: int,
    f: int,
    r0: int,
    r1: int,
)
    requires
        block_size(n),
        2 <= mode <= 34,
        0 <= u < n,
        0 <= v < n,
        0 <= f < 32,
        32 * i + f == (v + 1) * displacements()[mode - 2],
        0 <= r0 < p2(bit_depth),
        neighbour_at(displacements()[mode - 2], main, side, u + i + 1, r0),
        f > 0 ==> 0 <= r1 < p2(bit_depth) && neighbour_at(
            displacements()[mode - 2],
            main,
            side,
            u + i + 2,
            r1,
        ),
    ensures
        f == 0 ==> angular_line_sample(mode, main, side, n, bit_depth, u, v) == r0,
        nearest(
            angular_line_sample(mode, main, side, n, bit_depth, u, v),
            (32 - f) * r0 + f * r1,
            32,
        ),
{
    let a = displacements()[mode - 2];
    directions_have_fixed_displacements(mode);
    lemma_p2_values();
    let pos = (v + 1) * a;
    assert(pos / 32 == i && pos % 32 == f);
    lemma_neighbour(mode, main, side, n, v, i, u + i + 1, r0);
    if f > 0 {
        lemma_neighbour(mode, main, side, n, v, i, u + i + 2, r1);
        let sum = (32 - f) * r0 + f * r1;
        let top = p2(bit_depth) - 1;
        assert(0 <= sum <= 32 * top) by (nonlinear_arith)
            requires
                sum == (32 - f) * r0 + f * r1,
                0 <= r0 <= top,
                0 <= r1 <= top,
                0 <= f < 32,
        ;
    } else {
        assert((32 - f) * r0 + f * r1 == 32 * r0) by (nonlinear_arith)
            requires
                f == 0,
        ;
    }
}

proof fn lemma_neighbour(
    mode: int,
    main: Seq<u16>,
    side: Seq<u16>,
    n: int,
    v: int,
    i: int,
    t: int,
    r: int,
)
    requires
        block_size(n),
        2 <= mode <= 34,
        0 <= v < n,
        (v + 1) * displacements()[mode - 2] < 32 * i + 32,
        t >= i + 1,
        neighbour_at(displacements()[mode - 2], main, side, t, r),
    ensures
        angular_ref(mode, main, side, n, t) == r,
{
    let a = displacements()[mode - 2];
    directions_have_fixed_displacements(mode);
    if t < 0 {
        assert(a < 0) by (nonlinear_arith)
            requires
                (v + 1) * a < 32 * t,
                t < 0,
                v >= 0,
        ;
        assert(11 <= mode <= 25);
        assert(n * a <= (v + 1) * a) by (nonlinear_arith)
            requires
                a < 0,
                v + 1 <= n,
        ;
        let k = choose|k: int| #[trigger] nearest_steps(k, a, 32 * t) && r == side[k];
        side_neighbours_lie_on_the_direction(mode, main, side, n, t, k);
    }
}

/// Planar samples are the mean, to the nearest, of two ramps: one from the left neighbour to the
/// one above and right of the block, one from the neighbour above to the one below and left of it.
pub proof fn planar_samples_average_two_ramps(
    above: Seq<u16>,
    left: Seq<u16>,
    n: int,
    x: int,
    y: int,
    across: int,
    down: int,
)
    requires
        block_size(n),
        across == n * left[y + 1] + (x + 1) * (above[n + 1] - left[y + 1]),
        down == n * above[x + 1] + (y + 1) * (left[n + 1] - above[x + 1]),
    ensures
        nearest(planar_sample(above, left, n, x, y), across + down, 2 * n),
{
    lemma_p2_values();
    let (l, t, b, c) = (
        left[y + 1] as int,
        above[n + 1] as int,
        left[n + 1] as int,
        above[x + 1] as int,
    );
    let sum = (n - 1 - x) * l + (x + 1) * t + (n - 1 - y) * c + (y + 1) * b;
    assert(sum == across + down) by (nonlinear_arith)
        requires
            sum == (n - 1 - x) * l + (x + 1) * t + (n - 1 - y) * c + (y + 1) * b,
            across == n * l + (x + 1) * (t - l),
            down == n * c + (y + 1) * (b - c),
    ;
    lemma_mean(planar_sample(above, left, n, x, y), sum, n);
}

/// The sum of some samples.
pub open spec fn total(s: Seq<u16>) -> int
    decreases s.len(),
{
    if s.len() == 0 {
        0
    } else {
        total(s.drop_last()) + s.last()
    }
}

proof fn lemma_border_sum(above: Seq<u16>, left: Seq<u16>, k: int)
    requires
        sides_ok(above, left, k),
        0 <= k,
    ensures
        border_sum(above, left, k) == total(above.subrange(1, k + 1)) + total(
            left.subrange(1, k + 1),
        ),
    decreases k,
{
    if k > 0 {
        lemma_border_sum(above, left, k - 1);
        assert(above.subrange(1, k + 1).drop_last() =~= above.subrange(1, k));
        assert(left.subrange(1, k + 1).drop_last() =~= left.subrange(1, k));
    }
}

proof fn lemma_mean(v: int, sum: int, n: int)
    requires
        block_size(n),
        v == asr(sum + n, log2_block(n) + 1),
    ensures
        nearest(v, sum, 2 * n),
{
    lemma_p2_values();
    if n == 2 {
        assert(nearest(v, sum, 4));
    } else if n == 4 {
        assert(nearest(v, sum, 8));
    } else if n == 8 {
        assert(nearest(v, sum, 16));
    } else if n == 16 {
        assert(nearest(v, sum, 32));
    } else {
        assert(nearest(v, sum, 64));
    }
}

/// A DC block is the mean of its `n` neighbours above and `n` neighbours to the left, to the
/// nearest. In luma blocks smaller than 32 the first row and column take a quarter of the neighbour
/// next to them, and the first sample a quarter of each of its two.
pub proof fn dc_samples_are_the_mean(
    above: Seq<u16>,
    left: Seq<u16>,
    n: int,
    is_luma: bool,
    x: int,
    y: int,
    mean: int,
)
    requires
        block_size(n),
        sides_ok(above, left, n),
        0 <= x < n,
        0 <= y < n,
        nearest(mean, total(above.subrange(1, n + 1)) + total(left.subrange(1, n + 1)), 2 * n),
    ensures
        ({
            let v = dc_sample(above, left, n, is_luma, x, y);
            if is_luma && n < 32 && (x == 0 || y == 0) {
                &&& x == 0 && y == 0 ==> nearest(v, left[1] + 2 * mean + above[1], 4)
                &&& x > 0 ==> nearest(v, 3 * mean + above[x + 1], 4)
                &&& y > 0 ==> nearest(v, 3 * mean + left[y + 1], 4)
            } else {
                v == mean
            }
        }),
{
    lemma_p2_values();
    lemma_border_sum(above, left, n);
    let sum = border_sum(above, left, n);
    let dc = dc_value(above, left, n);
    lemma_mean(dc, sum, n);
    assert(dc == mean) by (nonlinear_arith)
        requires
            (2 * dc - 1) * (2 * n) <= 2 * sum < (2 * dc + 1) * (2 * n),
            (2 * mean - 1) * (2 * n) <= 2 * sum < (2 * mean + 1) * (2 * n),
            n > 0,
    ;
}

/// `v` is `t`, or the nearer end of the sample range where that lies outside it.
pub open spec fn within_depth(v: int, t: int, bit_depth: int) -> bool {
    &&& 0 <= t < p2(bit_depth) ==> v == t
    &&& t < 0 ==> v == 0
    &&& t >= p2(bit_depth) ==> v == p2(bit_depth) - 1
}

/// Vertical prediction repeats the row above. In luma blocks smaller than 32 the first column
/// follows the left neighbours: it moves by half of their step from the corner, rounded down.
pub proof fn vertical_samples_repeat_the_row(
    above: Seq<u16>,
    left: Seq<u16>,
    n: int,
    is_luma: bool,
    bit_depth: int,
    x: int,
    y: int,
    half: int,
)
    requires
        0 <= bit_depth,
        2 * half <= left[y + 1] - above[0] <= 2 * half + 1,
    ensures
        if is_luma && n < 32 && x == 0 {
            within_depth(
                vertical_sample(above, left, n, is_luma, bit_depth, x, y),
                above[1] + half,
                bit_depth,
            )
        } else {
            vertical_sample(above, left, n, is_luma, bit_depth, x, y) == above[x + 1]
        },
{
    lemma_p2_values();
    lemma_p2_pos(bit_depth);
}

/// Horizontal prediction repeats the left column. In luma blocks smaller than 32 the first row
/// follows the neighbours above: it moves by half of their step from the corner, rounded down.
pub proof fn horizontal_samples_repeat_the_column(
    above: Seq<u16>,
    left: Seq<u16>,
    n: int,
    is_luma: bool,
    bit_depth: int,
    x: int,
    y: int,
    half: int,
)
    requires
        0 <= bit_depth,
        2 * half <= above[x + 1] - left[0] <= 2 * half + 1,
    ensures
        if is_luma && n < 32 && y == 0 {
            within_depth(
                horizontal_sample(above, left, n, is_luma, bit_depth, x, y),
                left[1] + half,
                bit_depth,
            )
        } else {
            horizontal_sample(above, left, n, is_luma, bit_depth, x, y) == left[y + 1]
        },
{
    lemma_p2_values();
    lemma_p2_pos(bit_depth);
}

/// Mode 0 is planar, 1 DC, 10 horizontal, 26 vertical, and the others follow their direction. A
/// block is stored by rows from the start of the buffer, and what lies behind it stays.
pub proof fn blocks_hold_their_mode(
    out: Seq<u16>,
    before: Seq<u16>,
    mode: int,
    above: Seq<u16>,
    left: Seq<u16>,
    n: int,
    is_luma: bool,
    bit_depth: int,
    x: int,
    y: int,
    j: int,
)
    requires
        block_holds(
            out,
            before,
            n,
            predicted_block(mode, above, left, n, is_luma, bit_depth),
        ),
        0 <= x < n,
        0 <= y < n,
    ensures
        out.len() == before.len(),
        n * n <= j < before.len() ==> out[j] == before[j],
        out[y * n + x] == (if mode == 0 {
            planar_sample(above, left, n, x, y)
        } else if mode == 1 {
            dc_sample(above, left, n, is_luma, x, y)
        } else if mode == 10 {
            horizontal_sample(above, left, n, is_luma, bit_depth, x, y)
        } else if mode == 26 {
            vertical_sample(above, left, n, is_luma, bit_depth, x, y)
        } else {
            angular_sample(mode, above, left, n, bit_depth, x, y)
        }),
{
    lemma_row_major(y, x, n, n);
    assert(out[y * n + x] == predicted_block(mode, above, left, n, is_luma, bit_depth)(
        (y * n + x) % n,
        (y * n + x) / n,
    ));
}

} // verus!
