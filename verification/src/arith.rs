//! Shared integer arithmetic: clamping, floor shifts and powers of two.
use vstd::prelude::*;

verus! {

/// `2^k`, and `1` for negative `k`.
pub open spec fn p2(k: int) -> int
    decreases k,
{
    if k <= 0 {
        1
    } else {
        2 * p2(k - 1)
    }
}

/// Arithmetic shift right by `k` bits: division by `2^k`, rounded down.
pub open spec fn asr(x: int, k: int) -> int {
    x / p2(k)
}

/// `v` limited to `lo..=hi`; when the range is empty the lower bound is tested first.
pub open spec fn clip3(lo: int, hi: int, v: int) -> int {
    if v < lo {
        lo
    } else if v > hi {
        hi
    } else {
        v
    }
}

/// `v` limited to the signed 16-bit range.
pub open spec fn clip16(v: int) -> int {
    clip3(-32768, 32767, v)
}

pub open spec fn min_int(a: int, b: int) -> int {
    if a <= b {
        a
    } else {
        b
    }
}

pub open spec fn max_int(a: int, b: int) -> int {
    if a >= b {
        a
    } else {
        b
    }
}

pub open spec fn abs_int(a: int) -> int {
    if a < 0 {
        -a
    } else {
        a
    }
}

pub proof fn lemma_p2_pos(k: int)
    ensures
        p2(k) >= 1,
    decreases k,
{
    if k > 0 {
        lemma_p2_pos(k - 1);
    }
}

pub proof fn lemma_p2_mono(a: int, b: int)
    requires
        a <= b,
    ensures
        p2(a) <= p2(b),
    decreases b - a,
{
    lemma_p2_pos(b);
    if a < b {
        lemma_p2_mono(a, b - 1);
        lemma_p2_pos(b - 1);
    }
}

pub proof fn lemma_p2_add(a: int, b: int)
    requires
        0 <= a,
        0 <= b,
    ensures
        p2(a + b) == p2(a) * p2(b),
    decreases b,
{
    if b > 0 {
        lemma_p2_add(a, b - 1);
        let x = p2(a);
        let y = p2(b - 1);
        assert(2 * (x * y) == x * (2 * y)) by (nonlinear_arith);
    }
}

/// The powers of two that the fixed-point formulas use.
pub proof fn lemma_p2_values()
    ensures
        p2(0) == 1,
        p2(1) == 2,
        p2(2) == 4,
        p2(3) == 8,
        p2(4) == 16,
        p2(5) == 32,
        p2(6) == 64,
        p2(7) == 128,
        p2(8) == 256,
        p2(9) == 512,
        p2(10) == 1024,
        p2(11) == 2048,
        p2(12) == 4096,
        p2(13) == 8192,
        p2(14) == 16384,
        p2(15) == 32768,
        p2(16) == 65536,
        p2(20) == 1048576,
        p2(24) == 16777216,
        p2(30) == 1073741824,
        p2(31) == 2147483648,
        p2(32) == 4294967296,
{
    reveal_with_fuel(p2, 34);
}

proof fn lemma_div_2_step(x: int, d: int)
    requires
        d > 0,
    ensures
        (x / d) / 2 == x / (2 * d),
{
    let q = x / d;
    let r = x % d;
    let h = q / 2;
    let b = q % 2;
    vstd::arithmetic::div_mod::lemma_fundamental_div_mod(x, d);
    assert(x == (2 * d) * h + (d * b + r) && 0 <= d * b + r < 2 * d) by (nonlinear_arith)
        requires
            d > 0,
            x == d * q + r,
            0 <= r < d,
            q == 2 * h + b,
            0 <= b < 2,
    ;
    vstd::arithmetic::div_mod::lemma_fundamental_div_mod_converse(x, 2 * d, h, d * b + r);
}

proof fn lemma_shr_i32(x: i32, k: u32)
    requires
        k < 32,
    ensures
        (x >> k) == asr(x as int, k as int),
    decreases k,
{
    if k == 0 {
        assert(x >> 0u32 == x) by (bit_vector);
    } else {
        let j = (k - 1) as u32;
        lemma_shr_i32(x, j);
        let y: i32 = x >> j;
        assert(x >> k == (x >> j) >> 1u32) by (bit_vector)
            requires
                0 < k < 32,
                j == k - 1,
        ;
        assert(y >> 1u32 == y / 2) by (bit_vector);
        lemma_p2_pos(j as int);
        lemma_div_2_step(x as int, p2(j as int));
    }
}

proof fn lemma_shr_i64(x: i64, k: u32)
    requires
        k < 64,
    ensures
        (x >> k) == asr(x as int, k as int),
    decreases k,
{
    if k == 0 {
        assert(x >> 0u32 == x) by (bit_vector);
    } else {
        let j = (k - 1) as u32;
        lemma_shr_i64(x, j);
        let y: i64 = x >> j;
        assert(x >> k == (x >> j) >> 1u32) by (bit_vector)
            requires
                0 < k < 64,
                j == k - 1,
        ;
        assert(y >> 1u32 == y / 2) by (bit_vector);
        lemma_p2_pos(j as int);
        lemma_div_2_step(x as int, p2(j as int));
    }
}

proof fn lemma_shr_usize(x: usize, k: u32)
    requires
        k < 32,
    ensures
        (x >> k) == asr(x as int, k as int),
    decreases k,
{
    if k == 0 {
        assert(x >> 0u32 == x) by (bit_vector);
    } else {
        let j = (k - 1) as u32;
        lemma_shr_usize(x, j);
        let y: usize = x >> j;
        assert(x >> k == (x >> j) >> 1u32) by (bit_vector)
            requires
                0 < k < 32,
                j == k - 1,
        ;
        assert(y >> 1u32 == y / 2) by (bit_vector);
        lemma_p2_pos(j as int);
        lemma_div_2_step(x as int, p2(j as int));
    }
}

proof fn lemma_one_shl_i64(k: u32)
    requires
        k < 63,
    ensures
        (1i64 << k) == p2(k as int),
    decreases k,
{
    if k == 0 {
        assert(1i64 << 0u32 == 1) by (bit_vector);
    } else {
        let j = (k - 1) as u32;
        lemma_one_shl_i64(j);
        assert((1i64 << k) == 2 * (1i64 << j)) by (bit_vector)
            requires
                0 < k < 63,
                j == k - 1,
        ;
    }
}

proof fn lemma_one_shl_usize(k: u32)
    requires
        k < 32,
    ensures
        (1usize << k) == p2(k as int),
    decreases k,
{
    if k == 0 {
        assert(1usize << 0u32 == 1) by (bit_vector);
    } else {
        let j = (k - 1) as u32;
        lemma_one_shl_usize(j);
        assert((1usize << k) == 2 * (1usize << j)) by (bit_vector)
            requires
                0 < k < 32,
                j == k - 1,
        ;
    }
}

/// Flooring division keeps bounds: `lo * d <= x < hi * d` puts the quotient in `lo..hi`.
pub proof fn lemma_asr_bounds(x: int, k: int, lo: int, hi: int)
    requires
        lo * p2(k) <= x < hi * p2(k),
    ensures
        lo <= asr(x, k) < hi,
{
    lemma_p2_pos(k);
    let d = p2(k);
    let q = x / d;
    assert(x == d * q + x % d && 0 <= x % d < d) by {
        vstd::arithmetic::div_mod::lemma_fundamental_div_mod(x, d);
    }
    assert(lo <= q < hi) by (nonlinear_arith)
        requires
            lo * d <= x < hi * d,
            x == d * q + x % d,
            0 <= x % d < d,
    ;
}

/// A right shift never leaves the interval spanned by its operand and zero (or minus one).
pub proof fn lemma_asr_shrinks(x: int, k: int)
    ensures
        x >= 0 ==> 0 <= asr(x, k) <= x,
        x < 0 ==> x <= asr(x, k) <= -1,
{
    lemma_p2_pos(k);
    let d = p2(k);
    let q = x / d;
    assert(x == d * q + x % d && 0 <= x % d < d) by {
        vstd::arithmetic::div_mod::lemma_fundamental_div_mod(x, d);
    }
    assert(x >= 0 ==> 0 <= q <= x) by (nonlinear_arith)
        requires
            d >= 1,
            x == d * q + x % d,
            0 <= x % d < d,
    ;
    assert(x < 0 ==> x <= q <= -1) by (nonlinear_arith)
        requires
            d >= 1,
            x == d * q + x % d,
            0 <= x % d < d,
    ;
}

/// A right shift is monotone in its operand.
pub proof fn lemma_asr_mono(x: int, y: int, k: int)
    requires
        x <= y,
    ensures
        asr(x, k) <= asr(y, k),
{
    lemma_p2_pos(k);
    vstd::arithmetic::div_mod::lemma_div_is_ordered(x, y, p2(k));
}

/// Shifting a multiple of `2^k` is exact.
pub proof fn lemma_asr_exact(q: int, k: int)
    ensures
        asr(q * p2(k), k) == q,
{
    lemma_p2_pos(k);
    vstd::arithmetic::div_mod::lemma_div_multiples_vanish(q, p2(k));
    assert(q * p2(k) == p2(k) * q) by (nonlinear_arith);
}

pub fn shr_i32(x: i32, k: u32) -> (r: i32)
    requires
        k < 32,
    ensures
        r == asr(x as int, k as int),
{
    proof {
        lemma_shr_i32(x, k);
    }
    x >> k
}

pub fn shr_i64(x: i64, k: u32) -> (r: i64)
    requires
        k < 64,
    ensures
        r == asr(x as int, k as int),
{
    proof {
        lemma_shr_i64(x, k);
    }
    x >> k
}

pub fn shr_usize(x: usize, k: u32) -> (r: usize)
    requires
        k < 32,
    ensures
        r == asr(x as int, k as int),
{
    proof {
        lemma_shr_usize(x, k);
    }
    x >> k
}

pub fn pow2_i64(k: u32) -> (r: i64)
    requires
        k < 63,
    ensures
        r == p2(k as int),
{
    proof {
        lemma_one_shl_i64(k);
    }
    1i64 << k
}

pub fn pow2_i32(k: u32) -> (r: i32)
    requires
        k < 31,
    ensures
        r == p2(k as int),
{
    proof {
        lemma_one_shl_i64(k);
        lemma_p2_mono(k as int, 30);
        lemma_p2_values();
        lemma_p2_pos(k as int);
    }
    (1i64 << k) as i32
}

pub fn pow2_usize(k: u32) -> (r: usize)
    requires
        k < 32,
    ensures
        r == p2(k as int),
{
    proof {
        lemma_one_shl_usize(k);
    }
    1usize << k
}

pub fn clip3_i32(lo: i32, hi: i32, v: i32) -> (r: i32)
    ensures
        r == clip3(lo as int, hi as int, v as int),
{
    if v < lo {
        lo
    } else if v > hi {
        hi
    } else {
        v
    }
}

pub fn clip3_i64(lo: i64, hi: i64, v: i64) -> (r: i64)
    ensures
        r == clip3(lo as int, hi as int, v as int),
{
    if v < lo {
        lo
    } else if v > hi {
        hi
    } else {
        v
    }
}

/// Row-major addressing: position `(r, c)` of an `h` by `w` grid lies inside the grid, and its
/// flat index determines the position.
pub proof fn lemma_row_major(r: int, c: int, w: int, h: int)
    requires
        0 <= r < h,
        0 <= c < w,
    ensures
        0 <= r * w + c < h * w,
        (r * w + c) / w == r,
        (r * w + c) % w == c,
{
    assert(0 <= r * w && r * w + w <= h * w) by (nonlinear_arith)
        requires
            0 <= r < h,
            0 < w,
    ;
    assert(r * w + c == w * r + c) by (nonlinear_arith);
    vstd::arithmetic::div_mod::lemma_fundamental_div_mod_converse(r * w + c, w, r, c);
}

/// Every flat index of an `h` by `w` grid is a row-major position.
pub proof fn lemma_row_major_split(i: int, w: int, h: int)
    requires
        0 <= i < h * w,
        0 < w,
    ensures
        0 <= i / w < h,
        0 <= i % w < w,
        i == (i / w) * w + i % w,
{
    vstd::arithmetic::div_mod::lemma_fundamental_div_mod(i, w);
    let q = i / w;
    assert(w * q == q * w) by (nonlinear_arith);
    assert(0 <= q < h) by (nonlinear_arith)
        requires
            0 <= i < h * w,
            i == w * q + i % w,
            0 <= i % w < w,
    ;
}

/// Which row of pitch `stride` a flat index lies in.
pub proof fn lemma_stride_row(j: int, stride: int, r: int)
    requires
        0 <= j,
        0 < stride,
    ensures
        j / stride == r <==> r * stride <= j < r * stride + stride,
        j / stride == r ==> j % stride == j - r * stride,
        0 <= j % stride < stride,
        0 <= j / stride,
{
    let q = j / stride;
    vstd::arithmetic::div_mod::lemma_fundamental_div_mod(j, stride);
    assert(stride * q == q * stride) by (nonlinear_arith);
    assert(q == r <==> r * stride <= j < r * stride + stride) by (nonlinear_arith)
        requires
            j == q * stride + j % stride,
            0 <= j % stride < stride,
    ;
    assert(0 <= q) by (nonlinear_arith)
        requires
            j == q * stride + j % stride,
            0 <= j % stride < stride,
            0 <= j,
    ;
}

/// The low 16 bits of `v` as a signed number.
pub open spec fn wrap16(v: int) -> int {
    (v + 32768) % 65536 - 32768
}

/// Keeps the low 16 bits.
pub fn wrap_i16(v: i32) -> (r: i16)
    ensures
        r == wrap16(v as int),
{
    assert((v as i16) == (v + 32768) % 65536 - 32768) by (bit_vector);
    v as i16
}

/// The low 32 bits of `v` as a signed number.
pub open spec fn wrap_i32(v: int) -> int {
    (v + 0x8000_0000) % 0x1_0000_0000 - 0x8000_0000
}

/// Keeps the low 32 bits.
pub fn wrap_to_i32(v: i64) -> (r: i32)
    requires
        -0x4000_0000_0000_0000 <= v <= 0x4000_0000_0000_0000,
    ensures
        r == wrap_i32(v as int),
{
    let m: i64 = (v + 0x8000_0000) % 0x1_0000_0000;
    let w: i64 = if m < 0 {
        m + 0x1_0000_0000
    } else {
        m
    };
    (w - 0x8000_0000) as i32
}

/// Shifting right is dividing and rounding down.
pub proof fn lemma_asr_floor(x: int, k: int)
    ensures
        asr(x, k) * p2(k) <= x < (asr(x, k) + 1) * p2(k),
{
    lemma_p2_pos(k);
    let d = p2(k);
    let q = asr(x, k);
    vstd::arithmetic::div_mod::lemma_fundamental_div_mod(x, d);
    assert(q * d <= x < (q + 1) * d) by (nonlinear_arith)
        requires
            x == d * q + x % d,
            0 <= x % d < d,
    ;
}

/// `v` is `sum` over `unit` to the nearest, halves up.
pub open spec fn nearest(v: int, sum: int, unit: int) -> bool {
    (2 * v - 1) * unit <= 2 * sum < (2 * v + 1) * unit
}

/// `v` is `sum` over `unit`, rounded down.
pub open spec fn floor_over(v: int, sum: int, unit: int) -> bool {
    v * unit <= sum < (v + 1) * unit
}

/// A shift after adding half of the unit rounds to the nearest.
pub proof fn lemma_asr_nearest(v: int, x: int, k: int)
    requires
        1 <= k,
    ensures
        nearest(asr(x + p2(k - 1), k), x, p2(k)),
        nearest(v, x, p2(k)) ==> v == asr(x + p2(k - 1), k),
{
    let h = p2(k - 1);
    let q = asr(x + h, k);
    lemma_p2_pos(k - 1);
    lemma_asr_floor(x + h, k);
    assert(p2(k) == 2 * h);
    assert((2 * q - 1) * (2 * h) <= 2 * x < (2 * q + 1) * (2 * h)) by (nonlinear_arith)
        requires
            q * (2 * h) <= x + h < (q + 1) * (2 * h),
    ;
    if nearest(v, x, p2(k)) {
        assert(v == q) by (nonlinear_arith)
            requires
                (2 * q - 1) * (2 * h) <= 2 * x < (2 * q + 1) * (2 * h),
                (2 * v - 1) * (2 * h) <= 2 * x < (2 * v + 1) * (2 * h),
                h >= 1,
        ;
    }
}

/// A shift rounds down.
pub proof fn lemma_asr_is_floor(v: int, x: int, k: int)
    ensures
        floor_over(asr(x, k), x, p2(k)),
        floor_over(v, x, p2(k)) ==> v == asr(x, k),
{
    lemma_asr_floor(x, k);
    lemma_p2_pos(k);
    let (q, d) = (asr(x, k), p2(k));
    if floor_over(v, x, p2(k)) {
        assert(v == q) by (nonlinear_arith)
            requires
                q * d <= x < (q + 1) * d,
                v * d <= x < (v + 1) * d,
                d >= 1,
        ;
    }
}

/// The sum of the products of the first `n` weights and values.
pub open spec fn weighted_total(w: spec_fn(int) -> int, v: spec_fn(int) -> int, n: int) -> int
    decreases n,
{
    if n <= 0 {
        0
    } else {
        w(n - 1) * v(n - 1) + weighted_total(w, v, n - 1)
    }
}

/// Keeping the low bits changes a number by a multiple of their range.
pub proof fn wrapping_keeps_the_low_bits(v: int)
    ensures
        -32768 <= wrap16(v) <= 32767,
        (v - wrap16(v)) % 65536 == 0,
        -0x8000_0000 <= wrap_i32(v) <= 0x7fff_ffff,
        (v - wrap_i32(v)) % 0x1_0000_0000 == 0,
{
}

} // verus!
