//! Inverse residual transforms: the partial-butterfly DCT for 4 to 32 points and the 4-point DST.
use vstd::prelude::*;
use crate::arith::{
    asr, clip16, clip3_i32, lemma_asr_bounds, lemma_asr_mono, lemma_asr_nearest,
    lemma_asr_shrinks, lemma_p2_mono,
    lemma_p2_pos, lemma_p2_values, lemma_row_major, lemma_row_major_split, nearest, p2, pow2_i32, shr_i32,
    weighted_total,
};

verus! {

pub const DST4: [[i32; 4]; 4] = [
    [29, 55, 74, 84],
    [74, 74, 0, -74],
    [84, -29, -74, 55],
    [55, -84, 74, -29],
];

/// Magnitude up to which a coefficient cannot overflow the 32-bit butterfly accumulators.
pub const COEFF_LIMIT: i32 = 524288;

/// The sizes for which a transform exists.
pub open spec fn transform_size(n: int) -> bool {
    n == 4 || n == 8 || n == 16 || n == 32
}

/// A quarter period of the transform cosine in steps of 1/128 turn: entry `t` approximates
/// `64 * sqrt(2) * cos(t * pi / 64)`, except that entry 0 is the DC gain 64.
pub open spec fn quarter_wave(t: int) -> int {
    if t == 0 {
        64
    } else if t <= 3 {
        90
    } else if t == 4 {
        89
    } else if t == 5 {
        88
    } else if t == 6 {
        87
    } else if t == 7 {
        85
    } else if t == 8 {
        83
    } else if t == 9 {
        82
    } else if t == 10 {
        80
    } else if t == 11 {
        78
    } else if t == 12 {
        75
    } else if t == 13 {
        73
    } else if t == 14 {
        70
    } else if t == 15 {
        67
    } else if t == 16 {
        64
    } else if t == 17 {
        61
    } else if t == 18 {
        57
    } else if t == 19 {
        54
    } else if t == 20 {
        50
    } else if t == 21 {
        46
    } else if t == 22 {
        43
    } else if t == 23 {
        38
    } else if t == 24 {
        36
    } else if t == 25 {
        31
    } else if t == 26 {
        25
    } else if t == 27 {
        22
    } else if t == 28 {
        18
    } else if t == 29 {
        13
    } else if t == 30 {
        9
    } else if t == 31 {
        4
    } else {
        0
    }
}

/// The transform cosine at `t / 128` of a turn.
pub open spec fn cos_wave(t: int) -> int {
    let u = t % 128;
    let v = if u > 64 {
        128 - u
    } else {
        u
    };
    if v > 32 {
        -quarter_wave(64 - v)
    } else {
        quarter_wave(v)
    }
}

/// Entry `(k, m)` of the `n`-point transform matrix: basis function `k` at sample `m`.
pub open spec fn dct_coef(n: int, k: int, m: int) -> int {
    cos_wave((32int / n) * (k * (2 * m + 1)))
}

/// The transform kernel of a block.
#[derive(Clone, Copy, PartialEq, Eq, Structural)]
pub enum Kernel {
    Dct,
    Dst,
}

impl Kernel {
    /// Entry `(k, m)` of the kernel's `n`-point matrix.
    pub open spec fn coef(self, n: int, k: int, m: int) -> int {
        match self {
            Kernel::Dct => dct_coef(n, k, m),
            Kernel::Dst => DST4@[k]@[m] as int,
        }
    }

    /// The kernel has an `n`-point form.
    pub open spec fn supports(self, n: int) -> bool {
        match self {
            Kernel::Dct => transform_size(n),
            Kernel::Dst => n == 4,
        }
    }
}

/// The first `k` terms of output sample `m` of an `n`-point inverse transform of `c`.
pub open spec fn kernel_sum(kernel: Kernel, n: int, c: Seq<int>, m: int, k: int) -> int
    decreases k,
{
    if k <= 0 {
        0
    } else {
        kernel_sum(kernel, n, c, m, k - 1) + kernel.coef(n, k - 1, m) * c[k - 1]
    }
}

/// Output sample `m` of an `n`-point inverse transform of `c`, before rounding.
pub open spec fn kernel_point(kernel: Kernel, n: int, c: Seq<int>, m: int) -> int {
    kernel_sum(kernel, n, c, m, n)
}

pub open spec fn ints(s: Seq<i32>) -> Seq<int> {
    Seq::new(s.len(), |i: int| s[i] as int)
}

pub open spec fn bounded(s: Seq<i32>, b: int) -> bool {
    forall|i: int| 0 <= i < s.len() ==> -b <= #[trigger] s[i] <= b
}

spec fn evens(c: Seq<int>) -> Seq<int> {
    Seq::new((c.len() / 2) as nat, |j: int| c[2 * j])
}

spec fn odd_sum(n: int, c: Seq<int>, m: int, j: int) -> int
    decreases j,
{
    if j <= 0 {
        0
    } else {
        odd_sum(n, c, m, j - 1) + dct_coef(n, 2 * j - 1, m) * c[2 * j - 1]
    }
}

proof fn lemma_kernel_coef_bound(kernel: Kernel, n: int, k: int, m: int)
    requires
        kernel.supports(n),
        0 <= k < n,
        0 <= m < n,
    ensures
        -90 <= kernel.coef(n, k, m) <= 90,
{
    match kernel {
        Kernel::Dct => {},
        Kernel::Dst => {
            assert(k == 0 || k == 1 || k == 2 || k == 3);
            assert(m == 0 || m == 1 || m == 2 || m == 3);
        },
    }
}

proof fn lemma_kernel_sum_bound(kernel: Kernel, n: int, c: Seq<int>, m: int, k: int, b: int)
    requires
        kernel.supports(n),
        0 <= k <= n,
        0 <= m < n,
        c.len() == n,
        0 <= b,
        forall|i: int| 0 <= i < n ==> -b <= #[trigger] c[i] <= b,
    ensures
        -(90 * b) * k <= kernel_sum(kernel, n, c, m, k) <= (90 * b) * k,
    decreases k,
{
    if k > 0 {
        lemma_kernel_sum_bound(kernel, n, c, m, k - 1, b);
        lemma_kernel_coef_bound(kernel, n, k - 1, m);
        let t = kernel.coef(n, k - 1, m);
        let x = c[k - 1];
        assert(-(90 * b) <= t * x <= 90 * b) by (nonlinear_arith)
            requires
                -90 <= t <= 90,
                -b <= x <= b,
        ;
        assert((90 * b) * (k - 1) + 90 * b == (90 * b) * k) by (nonlinear_arith);
        assert(-(90 * b) * (k - 1) - 90 * b == -(90 * b) * k) by (nonlinear_arith);
    } else {
        assert((90 * b) * 0 == 0);
    }
}

proof fn lemma_cos_symmetry(a: int, k: int)
    ensures
        k % 2 == 0 ==> cos_wave(64 * k - a) == cos_wave(a),
        k % 2 == 1 ==> cos_wave(64 * k - a) == -cos_wave(a),
{
    let h = k / 2;
    if k % 2 == 0 {
        assert((64 * k - a) % 128 == (-a) % 128);
    } else {
        assert((64 * k - a) % 128 == (64 - a) % 128);
    }
}

/// Even basis functions of the `n`-point transform are those of the half-size transform, mirrored;
/// odd ones are antisymmetric.
proof fn lemma_dct_halves(n: int, k: int, m: int)
    requires
        n == 8 || n == 16 || n == 32,
        0 <= k < n / 2,
        0 <= m < n / 2,
    ensures
        dct_coef(n, 2 * k, m) == dct_coef(n / 2, k, m),
        dct_coef(n, 2 * k, n - 1 - m) == dct_coef(n / 2, k, m),
        dct_coef(n, 2 * k + 1, n - 1 - m) == -dct_coef(n, 2 * k + 1, m),
{
    let s = 32int / n;
    let f = 2 * m + 1;
    let g = 2 * (n - 1 - m) + 1;
    assert(g == 2 * n - f);
    assert(s * n == 32 && 32int / (n / 2) == 2 * s);
    let e = s * ((2 * k) * f);
    let o = s * ((2 * k + 1) * f);
    assert((2 * s) * (k * f) == e) by (nonlinear_arith)
        requires
            e == s * ((2 * k) * f),
    ;
    assert(s * ((2 * k) * g) == 64 * (2 * k) - e) by (nonlinear_arith)
        requires
            s * n == 32,
            g == 2 * n - f,
            e == s * ((2 * k) * f),
    ;
    assert(s * ((2 * k + 1) * g) == 64 * (2 * k + 1) - o) by (nonlinear_arith)
        requires
            s * n == 32,
            g == 2 * n - f,
            o == s * ((2 * k + 1) * f),
    ;
    lemma_cos_symmetry(e, 2 * k);
    lemma_cos_symmetry(o, 2 * k + 1);
}

/// Splitting a sum into its even terms (a half-size transform) and its odd terms.
proof fn lemma_split(n: int, c: Seq<int>, m: int, j: int)
    requires
        n == 8 || n == 16 || n == 32,
        c.len() == n,
        0 <= m < n / 2,
        0 <= j <= n / 2,
    ensures
        kernel_sum(Kernel::Dct, n, c, m, 2 * j) == kernel_sum(Kernel::Dct, n / 2, evens(c), m, j)
            + odd_sum(n, c, m, j),
        kernel_sum(Kernel::Dct, n, c, n - 1 - m, 2 * j) == kernel_sum(
            Kernel::Dct,
            n / 2,
            evens(c),
            m,
            j,
        ) - odd_sum(n, c, m, j),
    decreases j,
{
    if j > 0 {
        lemma_split(n, c, m, j - 1);
        lemma_dct_halves(n, j - 1, m);
        let d = Kernel::Dct;
        let x = c[2 * j - 1];
        let t = dct_coef(n, 2 * j - 1, m);
        assert(evens(c)[j - 1] == c[2 * (j - 1)]);
        assert(kernel_sum(d, n, c, m, 2 * j - 1) == kernel_sum(d, n, c, m, 2 * (j - 1)) + d.coef(
            n,
            2 * (j - 1),
            m,
        ) * c[2 * (j - 1)]);
        assert(kernel_sum(d, n, c, n - 1 - m, 2 * j - 1) == kernel_sum(
            d,
            n,
            c,
            n - 1 - m,
            2 * (j - 1),
        ) + d.coef(n, 2 * (j - 1), n - 1 - m) * c[2 * (j - 1)]);
        assert(kernel_sum(d, n, c, m, 2 * j) == kernel_sum(d, n, c, m, 2 * j - 1) + t * x);
        assert(kernel_sum(d, n, c, n - 1 - m, 2 * j) == kernel_sum(d, n, c, n - 1 - m, 2 * j - 1)
            + (-t) * x);
        assert((-t) * x == -(t * x)) by (nonlinear_arith);
    }
}

proof fn lemma_odd_sum_bound(n: int, c: Seq<int>, m: int, j: int, b: int)
    requires
        transform_size(n),
        c.len() == n,
        0 <= m < n,
        0 <= j <= n / 2,
        0 <= b,
        forall|i: int| 0 <= i < n ==> -b <= #[trigger] c[i] <= b,
    ensures
        -(90 * b) * j <= odd_sum(n, c, m, j) <= (90 * b) * j,
    decreases j,
{
    if j > 0 {
        lemma_odd_sum_bound(n, c, m, j - 1, b);
        lemma_kernel_coef_bound(Kernel::Dct, n, 2 * j - 1, m);
        let t = dct_coef(n, 2 * j - 1, m);
        let x = c[2 * j - 1];
        assert(-(90 * b) <= t * x <= 90 * b) by (nonlinear_arith)
            requires
                -90 <= t <= 90,
                -b <= x <= b,
        ;
        assert((90 * b) * (j - 1) + 90 * b == (90 * b) * j) by (nonlinear_arith);
        assert(-(90 * b) * (j - 1) - 90 * b == -(90 * b) * j) by (nonlinear_arith);
    } else {
        assert((90 * b) * 0 == 0);
    }
}

fn quarter_wave_at(t: usize) -> (r: i32)
    requires
        t <= 32,
    ensures
        r == quarter_wave(t as int),
{
    match t {
        0 => 64,
        1 => 90,
        2 => 90,
        3 => 90,
        4 => 89,
        5 => 88,
        6 => 87,
        7 => 85,
        8 => 83,
        9 => 82,
        10 => 80,
        11 => 78,
        12 => 75,
        13 => 73,
        14 => 70,
        15 => 67,
        16 => 64,
        17 => 61,
        18 => 57,
        19 => 54,
        20 => 50,
        21 => 46,
        22 => 43,
        23 => 38,
        24 => 36,
        25 => 31,
        26 => 25,
        27 => 22,
        28 => 18,
        29 => 13,
        30 => 9,
        31 => 4,
        _ => 0,
    }
}

/// Entry `(k, m)` of the `n`-point DCT matrix.
pub fn dct_coef_at(n: usize, k: usize, m: usize) -> (r: i32)
    requires
        transform_size(n as int),
        k < n,
        m < n,
    ensures
        r == dct_coef(n as int, k as int, m as int),
        -90 <= r <= 90,
{
    proof {
        let f = 2 * m + 1;
        assert(0 <= k * f <= 32 * 64) by (nonlinear_arith)
            requires
                0 <= k < 32,
                0 <= f < 64,
        ;
        assert(0 <= (32int / n as int) * (k * f) <= 8 * 2048) by (nonlinear_arith)
            requires
                0 <= k * f <= 2048,
                0 <= 32int / n as int <= 8,
        ;
    }
    let t: usize = (32 / n) * (k * (2 * m + 1));
    let u: usize = t % 128;
    let v: usize = if u > 64 {
        128 - u
    } else {
        u
    };
    if v > 32 {
        -quarter_wave_at(64 - v)
    } else {
        quarter_wave_at(v)
    }
}

/// The odd half of output sample `m`: the terms of the odd-numbered coefficients.
fn odd_point(c: &[i32], n: usize, m: usize) -> (r: i32)
    requires
        transform_size(n as int),
        c.len() == n,
        m < n,
        bounded(c@, COEFF_LIMIT as int),
    ensures
        r == odd_sum(n as int, ints(c@), m as int, n as int / 2),
        -754974720 <= r <= 754974720,
{
    let mut acc: i32 = 0;
    let half: usize = n / 2;
    for j in 0..half
        invariant
            transform_size(n as int),
            c.len() == n,
            m < n,
            half == n / 2,
            bounded(c@, COEFF_LIMIT as int),
            acc == odd_sum(n as int, ints(c@), m as int, j as int),
    {
        proof {
            lemma_odd_sum_bound(n as int, ints(c@), m as int, j as int, COEFF_LIMIT as int);
            lemma_odd_sum_bound(n as int, ints(c@), m as int, j + 1, COEFF_LIMIT as int);
            let b = 90 * COEFF_LIMIT as int;
            assert(-754974720 <= -b * (j + 1) && b * (j + 1) <= 754974720) by (nonlinear_arith)
                requires
                    b == 47185920,
                    0 <= j < 16,
            ;
            let t = dct_coef(n as int, 2 * j + 1, m as int);
            let x = c@[2 * j + 1] as int;
            lemma_kernel_coef_bound(Kernel::Dct, n as int, 2 * j + 1, m as int);
            assert(-47185920 <= t * x <= 47185920) by (nonlinear_arith)
                requires
                    -90 <= t <= 90,
                    -524288 <= x <= 524288,
            ;
        }
        acc = acc + dct_coef_at(n, 2 * j + 1, m) * c[2 * j + 1];
    }
    proof {
        lemma_odd_sum_bound(n as int, ints(c@), m as int, half as int, COEFF_LIMIT as int);
        let b = 90 * COEFF_LIMIT as int;
        assert(-754974720 <= -b * half && b * half <= 754974720) by (nonlinear_arith)
            requires
                b == 47185920,
                0 <= half <= 16,
        ;
    }
    acc
}

/// Joins the half-size transform of the even coefficients with the odd part of sample `m`.
proof fn lemma_butterfly(n: int, c: Seq<int>, half: Seq<int>, m: int)
    requires
        n == 8 || n == 16 || n == 32,
        c.len() == n,
        half =~= evens(c),
        0 <= m < n / 2,
        forall|i: int|
            0 <= i < n ==> -(COEFF_LIMIT as int) <= #[trigger] c[i] <= COEFF_LIMIT as int,
    ensures
        kernel_point(Kernel::Dct, n, c, m) == kernel_point(Kernel::Dct, n / 2, half, m) + odd_sum(
            n,
            c,
            m,
            n / 2,
        ),
        kernel_point(Kernel::Dct, n, c, n - 1 - m) == kernel_point(Kernel::Dct, n / 2, half, m)
            - odd_sum(n, c, m, n / 2),
        -1509949440 <= kernel_point(Kernel::Dct, n, c, m) <= 1509949440,
        -1509949440 <= kernel_point(Kernel::Dct, n, c, n - 1 - m) <= 1509949440,
{
    lemma_split(n, c, m, n / 2);
    lemma_kernel_sum_bound(Kernel::Dct, n, c, m, n, COEFF_LIMIT as int);
    lemma_kernel_sum_bound(Kernel::Dct, n, c, n - 1 - m, n, COEFF_LIMIT as int);
}

fn idct_raw_4(c: &[i32; 4]) -> (r: [i32; 4])
    requires
        bounded(c@, COEFF_LIMIT as int),
    ensures
        forall|m: int|
            0 <= m < 4 ==> #[trigger] r@[m] == kernel_point(Kernel::Dct, 4, ints(c@), m),
{
    let e0: i32 = 64 * (c[0] + c[2]);
    let e1: i32 = 64 * (c[0] - c[2]);
    let o0: i32 = 83 * c[1] + 36 * c[3];
    let o1: i32 = 36 * c[1] - 83 * c[3];
    let r: [i32; 4] = [e0 + o0, e1 + o1, e1 - o1, e0 - o0];
    proof {
        reveal_with_fuel(kernel_sum, 5);
        let s = ints(c@);
        assert forall|m: int| 0 <= m < 4 implies #[trigger] r@[m] == kernel_point(
            Kernel::Dct,
            4,
            s,
            m,
        ) by {
            let t0 = dct_coef(4, 0, m);
            let t1 = dct_coef(4, 1, m);
            let t2 = dct_coef(4, 2, m);
            let t3 = dct_coef(4, 3, m);
            let x = t0 * s[0] + t1 * s[1] + t2 * s[2] + t3 * s[3];
            assert(kernel_point(Kernel::Dct, 4, s, m) == x);
            if m == 0 {
                assert(x == 64 * s[0] + 83 * s[1] + 64 * s[2] + 36 * s[3]) by (nonlinear_arith)
                    requires
                        x == t0 * s[0] + t1 * s[1] + t2 * s[2] + t3 * s[3],
                        t0 == 64 && t1 == 83 && t2 == 64 && t3 == 36,
                ;
            } else if m == 1 {
                assert(x == 64 * s[0] + 36 * s[1] - 64 * s[2] - 83 * s[3]) by (nonlinear_arith)
                    requires
                        x == t0 * s[0] + t1 * s[1] + t2 * s[2] + t3 * s[3],
                        t0 == 64 && t1 == 36 && t2 == -64 && t3 == -83,
                ;
            } else if m == 2 {
                assert(x == 64 * s[0] - 36 * s[1] - 64 * s[2] + 83 * s[3]) by (nonlinear_arith)
                    requires
                        x == t0 * s[0] + t1 * s[1] + t2 * s[2] + t3 * s[3],
                        t0 == 64 && t1 == -36 && t2 == -64 && t3 == 83,
                ;
            } else {
                assert(x == 64 * s[0] - 83 * s[1] + 64 * s[2] - 36 * s[3]) by (nonlinear_arith)
                    requires
                        x == t0 * s[0] + t1 * s[1] + t2 * s[2] + t3 * s[3],
                        t0 == 64 && t1 == -83 && t2 == 64 && t3 == -36,
                ;
            }
        }
    }
    r
}

fn idct_raw_8(c: &[i32; 8]) -> (r: [i32; 8])
    requires
        bounded(c@, COEFF_LIMIT as int),
    ensures
        forall|m: int|
            0 <= m < 8 ==> #[trigger] r@[m] == kernel_point(Kernel::Dct, 8, ints(c@), m),
{
    let even: [i32; 4] = [c[0], c[2], c[4], c[6]];
    let ee: [i32; 4] = idct_raw_4(&even);
    let mut out: [i32; 8] = [0; 8];
    for k in 0..4usize
        invariant
            bounded(c@, COEFF_LIMIT as int),
            forall|j: int| 0 <= j < 4 ==> #[trigger] even@[j] == c@[2 * j],
            forall|m: int|
                0 <= m < 4 ==> #[trigger] ee@[m] == kernel_point(
                    Kernel::Dct,
                    4,
                    ints(even@),
                    m,
                ),
            forall|m: int|
                0 <= m < k || 8 - k <= m < 8 ==> #[trigger] out@[m] == kernel_point(
                    Kernel::Dct,
                    8,
                    ints(c@),
                    m,
                ),
    {
        let oo: i32 = odd_point(c.as_slice(), 8, k);
        proof {
            lemma_butterfly(8, ints(c@), ints(even@), k as int);
        }
        out[k] = ee[k] + oo;
        out[7 - k] = ee[k] - oo;
    }
    out
}

fn idct_raw_16(c: &[i32; 16]) -> (r: [i32; 16])
    requires
        bounded(c@, COEFF_LIMIT as int),
    ensures
        forall|m: int|
            0 <= m < 16 ==> #[trigger] r@[m] == kernel_point(Kernel::Dct, 16, ints(c@), m),
{
    let even: [i32; 8] = [c[0], c[2], c[4], c[6], c[8], c[10], c[12], c[14]];
    let ee: [i32; 8] = idct_raw_8(&even);
    let mut out: [i32; 16] = [0; 16];
    for k in 0..8usize
        invariant
            bounded(c@, COEFF_LIMIT as int),
            forall|j: int| 0 <= j < 8 ==> #[trigger] even@[j] == c@[2 * j],
            forall|m: int|
                0 <= m < 8 ==> #[trigger] ee@[m] == kernel_point(
                    Kernel::Dct,
                    8,
                    ints(even@),
                    m,
                ),
            forall|m: int|
                0 <= m < k || 16 - k <= m < 16 ==> #[trigger] out@[m] == kernel_point(
                    Kernel::Dct,
                    16,
                    ints(c@),
                    m,
                ),
    {
        let oo: i32 = odd_point(c.as_slice(), 16, k);
        proof {
            lemma_butterfly(16, ints(c@), ints(even@), k as int);
        }
        out[k] = ee[k] + oo;
        out[15 - k] = ee[k] - oo;
    }
    out
}

fn idct_raw_32(c: &[i32; 32]) -> (r: [i32; 32])
    requires
        bounded(c@, COEFF_LIMIT as int),
    ensures
        forall|m: int|
            0 <= m < 32 ==> #[trigger] r@[m] == kernel_point(Kernel::Dct, 32, ints(c@), m),
{
    let even: [i32; 16] = [c[0], c[2], c[4], c[6], c[8], c[10], c[12], c[14], c[16], c[18], c[20], c[22], c[24], c[26], c[28], c[30]];
    let ee: [i32; 16] = idct_raw_16(&even);
    let mut out: [i32; 32] = [0; 32];
    for k in 0..16usize
        invariant
            bounded(c@, COEFF_LIMIT as int),
            forall|j: int| 0 <= j < 16 ==> #[trigger] even@[j] == c@[2 * j],
            forall|m: int|
                0 <= m < 16 ==> #[trigger] ee@[m] == kernel_point(
                    Kernel::Dct,
                    16,
                    ints(even@),
                    m,
                ),
            forall|m: int|
                0 <= m < k || 32 - k <= m < 32 ==> #[trigger] out@[m] == kernel_point(
                    Kernel::Dct,
                    32,
                    ints(c@),
                    m,
                ),
    {
        let oo: i32 = odd_point(c.as_slice(), 32, k);
        proof {
            lemma_butterfly(32, ints(c@), ints(even@), k as int);
        }
        out[k] = ee[k] + oo;
        out[31 - k] = ee[k] - oo;
    }
    out
}

/// Storage element of a coefficient or residual block: `i16` up to 8-bit samples, `i32` beyond.
/// The transforms accumulate in `i32` either way.
pub trait Coeff: Copy {
    spec fn value(self) -> int;

    /// `v` can be stored.
    spec fn holds(v: int) -> bool;

    /// The largest sample bit depth whose residuals this element stores.
    spec fn max_depth() -> int;

    proof fn lemma_holds(bit_depth: int, v: int)
        requires
            0 <= bit_depth <= Self::max_depth(),
            -residual_limit(bit_depth) <= v <= residual_limit(bit_depth),
        ensures
            Self::holds(v),
            Self::max_depth() <= 19,
    ;

    proof fn lemma_holds_16_bits(v: int)
        requires
            -32768 <= v <= 32767,
        ensures
            Self::holds(v),
    ;

    fn from_i32(v: i32) -> (r: Self)
        requires
            Self::holds(v as int),
        ensures
            r.value() == v,
    ;

    fn to_i32(self) -> (r: i32)
        ensures
            r == self.value(),
    ;
}

impl Coeff for i32 {
    open spec fn value(self) -> int {
        self as int
    }

    open spec fn holds(v: int) -> bool {
        i32::MIN <= v <= i32::MAX
    }

    open spec fn max_depth() -> int {
        19
    }

    proof fn lemma_holds(bit_depth: int, v: int) {
        lemma_asr_shrinks(94371840, 20 - bit_depth);
    }

    proof fn lemma_holds_16_bits(v: int) {
    }

    fn from_i32(v: i32) -> (r: Self) {
        v
    }

    fn to_i32(self) -> (r: i32) {
        self
    }
}

impl Coeff for i16 {
    open spec fn value(self) -> int {
        self as int
    }

    open spec fn holds(v: int) -> bool {
        i16::MIN <= v <= i16::MAX
    }

    open spec fn max_depth() -> int {
        8
    }

    proof fn lemma_holds(bit_depth: int, v: int) {
        lemma_p2_mono(12, 20 - bit_depth);
        lemma_p2_values();
        let d = p2(20 - bit_depth);
        assert(94371840int / d <= 23040) by (nonlinear_arith)
            requires
                d >= 4096,
        ;
    }

    proof fn lemma_holds_16_bits(v: int) {
    }

    fn from_i32(v: i32) -> (r: Self) {
        v as i16
    }

    fn to_i32(self) -> (r: i32) {
        self as i32
    }
}

/// Bound on the magnitude of a reconstructed residual sample.
pub open spec fn residual_limit(bit_depth: int) -> int {
    asr(94371840, 20 - bit_depth) + 1
}

pub open spec fn values<S: Coeff>(s: Seq<S>) -> Seq<int> {
    Seq::new(s.len(), |i: int| s[i].value())
}

/// Column `c` of an `n` by `n` block.
pub open spec fn column(n: int, coeff: Seq<int>, c: int) -> Seq<int> {
    Seq::new(n as nat, |k: int| coeff[k * n + c])
}

/// Row `m`, column `c` after the column pass: rounded by 7 bits and clipped to 16 bits. Columns
/// from `nx` on count as zero.
pub open spec fn column_pass(
    kernel: Kernel,
    n: int,
    nx: int,
    coeff: Seq<int>,
    m: int,
    c: int,
) -> int {
    if c < nx {
        clip16(asr(kernel_point(kernel, n, column(n, coeff, c), m) + 64, 7))
    } else {
        0
    }
}

pub open spec fn column_pass_row(
    kernel: Kernel,
    n: int,
    nx: int,
    coeff: Seq<int>,
    m: int,
) -> Seq<int> {
    Seq::new(n as nat, |c: int| column_pass(kernel, n, nx, coeff, m, c))
}

/// Residual sample `x` of row `r`: the row pass over the column pass, rounded to the sample depth.
pub open spec fn residual(
    kernel: Kernel,
    n: int,
    bit_depth: int,
    nx: int,
    coeff: Seq<int>,
    r: int,
    x: int,
) -> int {
    asr(
        kernel_point(kernel, n, column_pass_row(kernel, n, nx, coeff, r), x) + p2(19 - bit_depth),
        20 - bit_depth,
    )
}

/// Block `out` holds the inverse transform of `coeff` in its first `n * n` places and is otherwise
/// as in `before`.
pub open spec fn inverse_transform_of<S: Coeff>(
    kernel: Kernel,
    n: int,
    bit_depth: int,
    nx: int,
    coeff: Seq<S>,
    before: Seq<S>,
    out: Seq<S>,
) -> bool {
    &&& out.len() == before.len()
    &&& forall|i: int|
        0 <= i < n * n ==> (#[trigger] out[i]).value() == residual(
            kernel,
            n,
            bit_depth,
            nx,
            values(coeff),
            i / n,
            i % n,
        )
    &&& forall|i: int| n * n <= i < out.len() ==> #[trigger] out[i] == before[i]
}

/// The coefficients that the butterflies accept without overflow.
pub open spec fn transformable<S: Coeff>(n: int, coeff: Seq<S>) -> bool {
    &&& coeff.len() >= n * n
    &&& forall|i: int|
        0 <= i < n * n ==> -(COEFF_LIMIT as int) <= (#[trigger] coeff[i]).value()
            <= COEFF_LIMIT as int
}

/// The unrounded points of one `n`-point inverse DCT, by size.
fn idct_raw(c: &[i32; 32], n: usize) -> (r: [i32; 32])
    requires
        transform_size(n as int),
        bounded(c@, COEFF_LIMIT as int),
    ensures
        forall|m: int|
            0 <= m < n ==> #[trigger] r@[m] == kernel_point(
                Kernel::Dct,
                n as int,
                ints(c@.take(n as int)),
                m,
            ),
{
    let mut out: [i32; 32] = [0; 32];
    if n == 4 {
        let src: [i32; 4] = [c[0], c[1], c[2], c[3]];
        let raw: [i32; 4] = idct_raw_4(&src);
        assert(ints(src@) =~= ints(c@.take(4)));
        for i in 0..4usize
            invariant
                forall|m: int| 0 <= m < i ==> #[trigger] out@[m] == raw@[m],
        {
            out[i] = raw[i];
        }
    } else if n == 8 {
        let src: [i32; 8] = [c[0], c[1], c[2], c[3], c[4], c[5], c[6], c[7]];
        let raw: [i32; 8] = idct_raw_8(&src);
        assert(ints(src@) =~= ints(c@.take(8)));
        for i in 0..8usize
            invariant
                forall|m: int| 0 <= m < i ==> #[trigger] out@[m] == raw@[m],
        {
            out[i] = raw[i];
        }
    } else if n == 16 {
        let src: [i32; 16] = [
            c[0], c[1], c[2], c[3], c[4], c[5], c[6], c[7], c[8], c[9], c[10], c[11], c[12], c[13],
            c[14], c[15],
        ];
        let raw: [i32; 16] = idct_raw_16(&src);
        assert(ints(src@) =~= ints(c@.take(16)));
        for i in 0..16usize
            invariant
                forall|m: int| 0 <= m < i ==> #[trigger] out@[m] == raw@[m],
        {
            out[i] = raw[i];
        }
    } else {
        assert(c@.take(32) =~= c@);
        out = idct_raw_32(c);
    }
    out
}

/// The unrounded points of the 4-point inverse DST; zero coefficients contribute nothing.
fn dst_raw(c: &[i32; 32]) -> (r: [i32; 32])
    requires
        bounded(c@, COEFF_LIMIT as int),
    ensures
        forall|m: int|
            0 <= m < 4 ==> #[trigger] r@[m] == kernel_point(
                Kernel::Dst,
                4,
                ints(c@.take(4)),
                m,
            ),
{
    let mut acc: [i32; 32] = [0; 32];
    let ghost s = ints(c@.take(4));
    for k in 0..4usize
        invariant
            bounded(c@, COEFF_LIMIT as int),
            s == ints(c@.take(4)),
            forall|m: int|
                0 <= m < 4 ==> #[trigger] acc@[m] == kernel_sum(Kernel::Dst, 4, s, m, k as int),
    {
        let ck: i32 = c[k];
        if ck == 0 {
            assert forall|m: int| 0 <= m < 4 implies #[trigger] acc@[m] == kernel_sum(
                Kernel::Dst,
                4,
                s,
                m,
                k + 1,
            ) by {
                let t = Kernel::Dst.coef(4, k as int, m);
                assert(t * 0 == 0);
                assert(s[k as int] == 0);
            }
        } else {
            let ghost before = acc@;
            for m in 0..4usize
                invariant
                    k < 4,
                    ck == c@[k as int],
                    s == ints(c@.take(4)),
                    bounded(c@, COEFF_LIMIT as int),
                    forall|j: int|
                        0 <= j < m ==> #[trigger] acc@[j] == kernel_sum(
                            Kernel::Dst,
                            4,
                            s,
                            j,
                            k + 1,
                        ),
                    forall|j: int|
                        m <= j < 4 ==> #[trigger] acc@[j] == kernel_sum(
                            Kernel::Dst,
                            4,
                            s,
                            j,
                            k as int,
                        ),
            {
                proof {
                    lemma_kernel_sum_bound(
                        Kernel::Dst,
                        4,
                        s,
                        m as int,
                        k + 1,
                        COEFF_LIMIT as int,
                    );
                    lemma_kernel_coef_bound(Kernel::Dst, 4, k as int, m as int);
                    let t = Kernel::Dst.coef(4, k as int, m as int);
                    assert(-47185920 <= t * ck <= 47185920) by (nonlinear_arith)
                        requires
                            -90 <= t <= 90,
                            -524288 <= ck <= 524288,
                    ;
                    let b = 90 * COEFF_LIMIT as int;
                    assert(-188743680 <= -b * (k + 1) && b * (k + 1) <= 188743680)
                        by (nonlinear_arith)
                        requires
                            b == 47185920,
                            0 <= k < 4,
                    ;
                }
                acc[m] = acc[m] + DST4[k][m] * ck;
            }
        }
    }
    acc
}

fn kernel_raw(kernel: Kernel, c: &[i32; 32], n: usize) -> (r: [i32; 32])
    requires
        kernel.supports(n as int),
        bounded(c@, COEFF_LIMIT as int),
    ensures
        forall|m: int|
            0 <= m < n ==> #[trigger] r@[m] == kernel_point(
                kernel,
                n as int,
                ints(c@.take(n as int)),
                m,
            ),
{
    match kernel {
        Kernel::Dct => idct_raw(c, n),
        Kernel::Dst => dst_raw(c),
    }
}

/// Two-dimensional inverse transform into `out[..n * n]`. `nx` is the number of leading columns
/// that may hold nonzero coefficients; later columns are not read.
fn inv_transform_n_into<S: Coeff>(
    kernel: Kernel,
    coeff: &[S],
    n: usize,
    bit_depth: u8,
    nx: usize,
    out: &mut [S],
)
    requires
        kernel.supports(n as int),
        transformable(n as int, coeff@),
        old(out).len() >= n * n,
        bit_depth <= S::max_depth(),
    ensures
        inverse_transform_of(
            kernel,
            n as int,
            bit_depth as int,
            nx as int,
            coeff@,
            old(out)@,
            final(out)@,
        ),
{
    proof {
        lemma_asr_shrinks(94371840, 20 - bit_depth);
        S::lemma_holds(bit_depth as int, 0);
        assert(n * n <= 1024) by (nonlinear_arith)
            requires
                n <= 32,
        ;
    }
    let shift2: u32 = 20 - bit_depth as u32;
    proof {
        lemma_p2_mono(shift2 - 1, 19);
        lemma_p2_values();
        reveal_with_fuel(p2, 4);
        lemma_p2_pos(shift2 - 1);
    }
    let add2: i32 = pow2_i32(shift2 - 1);
    let mut tmp: [i16; 1024] = [0; 1024];
    let ncols: usize = if nx < n {
        nx
    } else {
        n
    };
    let ghost src = values(coeff@);
    for c in 0..ncols
        invariant
            kernel.supports(n as int),
            transformable(n as int, coeff@),
            n * n <= 1024,
            n <= 32,
            ncols <= n,
            ncols <= nx,
            src == values(coeff@),
            forall|i: int|
                0 <= i < n * n ==> #[trigger] tmp@[i] == (if i % (n as int) < c {
                    column_pass(kernel, n as int, nx as int, src, i / n as int, i % n as int)
                } else {
                    0
                }),
    {
        let mut col: [i32; 32] = [0; 32];
        for k in 0..n
            invariant
                transformable(n as int, coeff@),
                n * n <= 1024,
                n <= 32,
                c < n,
                src == values(coeff@),
                bounded(col@, COEFF_LIMIT as int),
                forall|j: int| 0 <= j < k ==> #[trigger] col@[j] == src[j * n + c],
        {
            proof {
                lemma_row_major(k as int, c as int, n as int, n as int);
            }
            let v: i32 = coeff[k * n + c].to_i32();
            assert(v == src[k * n + c]);
            col[k] = v;
        }
        assert(ints(col@.take(n as int)) =~= column(n as int, src, c as int));
        let raw: [i32; 32] = kernel_raw(kernel, &col, n);
        let ghost points = column(n as int, src, c as int);
        for m in 0..n
            invariant
                kernel.supports(n as int),
                n * n <= 1024,
                n <= 32,
                c < ncols <= n,
                ncols <= nx,
                points == column(n as int, src, c as int),
                points.len() == n,
                forall|i: int|
                    0 <= i < n ==> -(COEFF_LIMIT as int) <= #[trigger] points[i] <= COEFF_LIMIT as int,
                forall|j: int|
                    0 <= j < n ==> #[trigger] raw@[j] == kernel_point(kernel, n as int, points, j),
                forall|i: int|
                    0 <= i < n * n ==> #[trigger] tmp@[i] == (if i % (n as int) < c || (i % (
                    n as int) == c && i / (n as int) < m) {
                        column_pass(kernel, n as int, nx as int, src, i / n as int, i % n as int)
                    } else {
                        0
                    }),
        {
            proof {
                lemma_kernel_sum_bound(
                    kernel,
                    n as int,
                    points,
                    m as int,
                    n as int,
                    COEFF_LIMIT as int,
                );
                let b = 90 * COEFF_LIMIT as int;
                assert(-1509949440 <= -b * n && b * n <= 1509949440) by (nonlinear_arith)
                    requires
                        b == 47185920,
                        0 <= n <= 32,
                ;
                lemma_row_major(m as int, c as int, n as int, n as int);
            }
            let v: i32 = clip3_i32(-32768, 32767, shr_i32(raw[m] + 64, 7));
            let ghost before = tmp@;
            tmp[m * n + c] = v as i16;
            assert forall|i: int| 0 <= i < n * n implies #[trigger] tmp@[i] == (if i % (n as int)
                < c || (i % (n as int) == c && i / (n as int) < m + 1) {
                column_pass(kernel, n as int, nx as int, src, i / n as int, i % n as int)
            } else {
                0
            }) by {
                lemma_row_major_split(i, n as int, n as int);
                assert(before[i] == before[i]);
            }
        }
        assert forall|i: int| 0 <= i < n * n implies #[trigger] tmp@[i] == (if i % (n as int) < c + 1 {
            column_pass(kernel, n as int, nx as int, src, i / n as int, i % n as int)
        } else {
            0
        }) by {
            lemma_row_major_split(i, n as int, n as int);
        }
    }
    assert forall|i: int| 0 <= i < n * n implies #[trigger] tmp@[i] == column_pass(
        kernel,
        n as int,
        nx as int,
        src,
        i / n as int,
        i % n as int,
    ) by {
        lemma_row_major_split(i, n as int, n as int);
    }
    let ghost start = out@;
    assert(0 * n == 0) by (nonlinear_arith);
    for r in 0..n
        invariant
            kernel.supports(n as int),
            n * n <= 1024,
            n <= 32,
            out.len() == start.len(),
            start.len() >= n * n,
            bit_depth <= S::max_depth() <= 19,
            shift2 == 20 - bit_depth,
            add2 == p2(19 - bit_depth),
            1 <= add2 <= 524288,
            src == values(coeff@),
            forall|i: int|
                0 <= i < n * n ==> #[trigger] tmp@[i] == column_pass(
                    kernel,
                    n as int,
                    nx as int,
                    src,
                    i / n as int,
                    i % n as int,
                ),
            forall|i: int|
                0 <= i < r * n ==> (#[trigger] out@[i]).value() == residual(
                    kernel,
                    n as int,
                    bit_depth as int,
                    nx as int,
                    src,
                    i / n as int,
                    i % n as int,
                ),
            forall|i: int| r * n <= i < out.len() ==> #[trigger] out@[i] == start[i],
    {
        let mut row: [i32; 32] = [0; 32];
        let ghost points = column_pass_row(kernel, n as int, nx as int, src, r as int);
        for c in 0..n
            invariant
                n * n <= 1024,
                n <= 32,
                r < n,
                points == column_pass_row(kernel, n as int, nx as int, src, r as int),
                forall|i: int|
                    0 <= i < n * n ==> #[trigger] tmp@[i] == column_pass(
                        kernel,
                        n as int,
                        nx as int,
                        src,
                        i / n as int,
                        i % n as int,
                    ),
                bounded(row@, 32768),
                forall|j: int| 0 <= j < c ==> #[trigger] row@[j] == points[j],
        {
            proof {
                lemma_row_major(r as int, c as int, n as int, n as int);
            }
            row[c] = tmp[r * n + c] as i32;
        }
        assert(ints(row@.take(n as int)) =~= points);
        let raw: [i32; 32] = kernel_raw(kernel, &row, n);
        proof {
            assert(r * n + n <= n * n) by (nonlinear_arith)
                requires
                    0 <= r < n,
            ;
        }
        for x in 0..n
            invariant
                kernel.supports(n as int),
                n <= 32,
                r < n,
                r * n + n <= n * n,
                n * n <= 1024,
                out.len() == start.len(),
                start.len() >= n * n,
                bit_depth <= S::max_depth() <= 19,
                shift2 == 20 - bit_depth,
                add2 == p2(19 - bit_depth),
                1 <= add2 <= 524288,
                points == column_pass_row(kernel, n as int, nx as int, src, r as int),
                forall|j: int| 0 <= j < n ==> -32768 <= #[trigger] points[j] <= 32768,
                forall|j: int|
                    0 <= j < n ==> #[trigger] raw@[j] == kernel_point(kernel, n as int, points, j),
                forall|i: int|
                    0 <= i < r * n + x ==> (#[trigger] out@[i]).value() == residual(
                        kernel,
                        n as int,
                        bit_depth as int,
                        nx as int,
                        src,
                        i / n as int,
                        i % n as int,
                    ),
                forall|i: int| r * n + x <= i < out.len() ==> #[trigger] out@[i] == start[i],
        {
            proof {
                lemma_kernel_sum_bound(kernel, n as int, points, x as int, n as int, 32768);
                let b = 90 * 32768int;
                assert(-94371840 <= -b * n && b * n <= 94371840) by (nonlinear_arith)
                    requires
                        b == 2949120,
                        0 <= n <= 32,
                ;
                lemma_row_major(r as int, x as int, n as int, n as int);
                lemma_residual_bound(raw@[x as int] as int, bit_depth as int);
            }
            let v: i32 = shr_i32(raw[x] + add2, shift2);
            proof {
                S::lemma_holds(bit_depth as int, v as int);
            }
            out[r * n + x] = S::from_i32(v);
        }
        assert(r * n + n == (r + 1) * n) by (nonlinear_arith);
    }
}

/// Rounding a row-pass point down to the sample depth stays within the residual limit.
proof fn lemma_residual_bound(raw: int, bit_depth: int)
    requires
        -94371840 <= raw <= 94371840,
        0 <= bit_depth <= 19,
    ensures
        -residual_limit(bit_depth) <= asr(raw + p2(19 - bit_depth), 20 - bit_depth)
            <= residual_limit(bit_depth),
{
    let k = 20 - bit_depth;
    let h = p2(k - 1);
    let d = p2(k);
    lemma_p2_pos(k - 1);
    assert(d == 2 * h);
    let q = 94371840int / d;
    vstd::arithmetic::div_mod::lemma_fundamental_div_mod(94371840, d);
    lemma_asr_mono(raw + h, 94371840 + d, k);
    lemma_asr_mono(-94371840, raw + h, k);
    assert(94371840 + d < (q + 2) * d && -(q + 1) * d <= -94371840) by (nonlinear_arith)
        requires
            94371840 == d * q + 94371840int % d,
            0 <= 94371840int % d < d,
    ;
    assert((q + 1) * d <= 94371840 + d) by (nonlinear_arith)
        requires
            94371840 == d * q + 94371840int % d,
            0 <= 94371840int % d < d,
    ;
    lemma_asr_bounds(94371840 + d, k, q + 1, q + 2);
    assert(-94371840 < 0 * d) by (nonlinear_arith);
    lemma_asr_bounds(-94371840, k, -(q + 1), 0);
}

/// Inverse DCT of 32-bit coefficients into `out[..n * n]`; `nx` is the nonzero column count.
pub fn inv_transform_into(coeff: &[i32], n: usize, bit_depth: u8, nx: usize, out: &mut [i32])
    requires
        transform_size(n as int),
        transformable(n as int, coeff@),
        old(out).len() >= n * n,
        bit_depth <= 19,
    ensures
        inverse_transform_of(
            Kernel::Dct,
            n as int,
            bit_depth as int,
            nx as int,
            coeff@,
            old(out)@,
            final(out)@,
        ),
{
    inv_transform_n_into::<i32>(Kernel::Dct, coeff, n, bit_depth, nx, out);
}

/// Inverse 4x4 DST of 32-bit coefficients into `out[..16]`.
pub fn inv_transform_dst_into(coeff: &[i32], bit_depth: u8, out: &mut [i32])
    requires
        transformable(4, coeff@),
        old(out).len() >= 16,
        bit_depth <= 19,
    ensures
        inverse_transform_of(Kernel::Dst, 4, bit_depth as int, 4, coeff@, old(out)@, final(out)@),
{
    inv_transform_n_into::<i32>(Kernel::Dst, coeff, 4, bit_depth, 4, out);
}

/// Inverse DCT of 16-bit coefficients, for samples of at most 8 bits.
pub fn inv_transform_into16(coeff: &[i16], n: usize, bit_depth: u8, nx: usize, out: &mut [i16])
    requires
        transform_size(n as int),
        coeff.len() >= n * n,
        old(out).len() >= n * n,
        bit_depth <= 8,
    ensures
        inverse_transform_of(
            Kernel::Dct,
            n as int,
            bit_depth as int,
            nx as int,
            coeff@,
            old(out)@,
            final(out)@,
        ),
{
    inv_transform_n_into::<i16>(Kernel::Dct, coeff, n, bit_depth, nx, out);
}

/// Inverse 4x4 DST of 16-bit coefficients, for samples of at most 8 bits.
pub fn inv_transform_dst_into16(coeff: &[i16], bit_depth: u8, out: &mut [i16])
    requires
        coeff.len() >= 16,
        old(out).len() >= 16,
        bit_depth <= 8,
    ensures
        inverse_transform_of(Kernel::Dst, 4, bit_depth as int, 4, coeff@, old(out)@, final(out)@),
{
    inv_transform_n_into::<i16>(Kernel::Dst, coeff, 4, bit_depth, 4, out);
}

proof fn lemma_kernel_sum_zero(kernel: Kernel, n: int, c: Seq<int>, m: int, k: int)
    requires
        0 <= k <= c.len(),
        forall|i: int| 0 <= i < k ==> #[trigger] c[i] == 0,
    ensures
        kernel_sum(kernel, n, c, m, k) == 0,
    decreases k,
{
    if k > 0 {
        lemma_kernel_sum_zero(kernel, n, c, m, k - 1);
        let t = kernel.coef(n, k - 1, m);
        assert(t * 0 == 0);
    }
}

/// Skipping the columns from `nx` on changes nothing when those columns are zero.
pub proof fn zero_columns_may_be_skipped(
    kernel: Kernel,
    n: int,
    bit_depth: int,
    nx: int,
    coeff: Seq<int>,
    r: int,
    x: int,
)
    requires
        kernel.supports(n),
        coeff.len() >= n * n,
        0 <= r < n,
        0 <= x < n,
        forall|k: int, c: int|
            0 <= k < n && nx <= c < n ==> coeff[#[trigger] (k * n + c)] == 0,
    ensures
        residual(kernel, n, bit_depth, nx, coeff, r, x) == residual(
            kernel,
            n,
            bit_depth,
            n,
            coeff,
            r,
            x,
        ),
{
    assert forall|c: int| 0 <= c < n implies #[trigger] column_pass(kernel, n, nx, coeff, r, c)
        == column_pass(kernel, n, n, coeff, r, c) by {
        if c >= nx {
            let points = column(n, coeff, c);
            assert forall|k: int| 0 <= k < n implies #[trigger] points[k] == 0 by {
                assert(coeff[k * n + c] == 0);
            }
            lemma_kernel_sum_zero(kernel, n, points, r, n);
            lemma_p2_values();
        }
    }
    assert(column_pass_row(kernel, n, nx, coeff, r) =~= column_pass_row(kernel, n, n, coeff, r));
}

/// A block without coefficients has no residual.
pub proof fn zero_block_has_zero_residual(
    kernel: Kernel,
    n: int,
    bit_depth: int,
    nx: int,
    coeff: Seq<int>,
    r: int,
    x: int,
)
    requires
        kernel.supports(n),
        0 <= bit_depth <= 19,
        coeff.len() >= n * n,
        0 <= r < n,
        0 <= x < n,
        forall|i: int| 0 <= i < n * n ==> #[trigger] coeff[i] == 0,
    ensures
        residual(kernel, n, bit_depth, nx, coeff, r, x) == 0,
{
    let row = column_pass_row(kernel, n, nx, coeff, r);
    assert forall|c: int| 0 <= c < n implies #[trigger] row[c] == 0 by {
        let points = column(n, coeff, c);
        assert forall|k: int| 0 <= k < n implies #[trigger] points[k] == 0 by {
            lemma_row_major(k, c, n, n);
        }
        lemma_kernel_sum_zero(kernel, n, points, r, n);
        lemma_p2_values();
    }
    lemma_kernel_sum_zero(kernel, n, row, x, n);
    let h = p2(19 - bit_depth);
    lemma_p2_pos(19 - bit_depth);
    assert(h / (2 * h) == 0) by (nonlinear_arith)
        requires
            h >= 1,
    ;
}

proof fn lemma_kernel_sum_first(n: int, c: Seq<int>, m: int, k: int)
    requires
        1 <= k <= c.len(),
        forall|i: int| 1 <= i < k ==> #[trigger] c[i] == 0,
    ensures
        kernel_sum(Kernel::Dct, n, c, m, k) == 64 * c[0],
    decreases k,
{
    let t = Kernel::Dct.coef(n, k - 1, m);
    if k > 1 {
        lemma_kernel_sum_first(n, c, m, k - 1);
        assert(t * 0 == 0);
    } else {
        assert(kernel_sum(Kernel::Dct, n, c, m, 0) == 0);
        assert((32int / n) * (0 * (2 * m + 1)) == 0) by (nonlinear_arith);
        assert(t == 64);
        assert(t * c[0] == 64 * c[0]) by (nonlinear_arith)
            requires
                t == 64,
        ;
    }
}

/// A lone DC coefficient makes a flat residual: every sample is the same function of it.
pub proof fn dc_block_has_flat_residual(
    n: int,
    bit_depth: int,
    nx: int,
    coeff: Seq<int>,
    r: int,
    x: int,
)
    requires
        transform_size(n),
        1 <= nx,
        coeff.len() >= n * n,
        0 <= r < n,
        0 <= x < n,
        forall|i: int| 1 <= i < n * n ==> #[trigger] coeff[i] == 0,
    ensures
        residual(Kernel::Dct, n, bit_depth, nx, coeff, r, x) == asr(
            64 * clip16(asr(64 * coeff[0] + 64, 7)) + p2(19 - bit_depth),
            20 - bit_depth,
        ),
{
    let row = column_pass_row(Kernel::Dct, n, nx, coeff, r);
    let points = column(n, coeff, 0);
    assert forall|k: int| 1 <= k < n implies #[trigger] points[k] == 0 by {
        lemma_row_major(k, 0, n, n);
        assert(k * n >= 1) by (nonlinear_arith)
            requires
                k >= 1,
                n >= 1,
        ;
    }
    lemma_kernel_sum_first(n, points, r, n);
    assert(points[0] == coeff[0]) by {
        assert(0 * n == 0) by (nonlinear_arith);
    }
    assert forall|c: int| 1 <= c < n implies #[trigger] row[c] == 0 by {
        let other = column(n, coeff, c);
        assert forall|k: int| 0 <= k < n implies #[trigger] other[k] == 0 by {
            lemma_row_major(k, c, n, n);
            assert(k * n >= 0) by (nonlinear_arith)
                requires
                    k >= 0,
                    n >= 1,
            ;
        }
        lemma_kernel_sum_zero(Kernel::Dct, n, other, r, n);
        lemma_p2_values();
    }
    lemma_kernel_sum_first(n, row, x, n);
}

/// The first rows of the four cosine transforms, as far as they do not repeat.
pub open spec fn first_row(n: int) -> Seq<int> {
    if n == 4 {
        seq![83, 36]
    } else if n == 8 {
        seq![89, 75, 50, 18]
    } else if n == 16 {
        seq![90, 87, 80, 70, 57, 43, 25, 9]
    } else {
        seq![90, 90, 88, 85, 82, 78, 73, 67, 61, 54, 46, 38, 31, 22, 13, 4]
    }
}

/// The constant row of every size is 64, and the first wave runs through the table and back with
/// the sign changed.
pub proof fn first_waves_are_fixed(n: int, m: int)
    requires
        transform_size(n),
        0 <= m < n,
    ensures
        dct_coef(n, 0, m) == 64,
        first_row(n).len() == n / 2,
        m < n / 2 ==> dct_coef(n, 1, m) == first_row(n)[m],
        m >= n / 2 ==> dct_coef(n, 1, m) == -first_row(n)[n - 1 - m],
{
    if n == 4 {
        assert(dct_coef(4, 1, m) == cos_wave(8 * (2 * m + 1)));
    } else if n == 8 {
        assert(dct_coef(8, 1, m) == cos_wave(4 * (2 * m + 1)));
    } else if n == 16 {
        assert(dct_coef(16, 1, m) == cos_wave(2 * (2 * m + 1)));
    } else {
        assert(dct_coef(32, 1, m) == cos_wave(2 * m + 1));
    }
}

proof fn lemma_same_phase(t: int, u: int)
    requires
        (t - u) % 128 == 0 || (t + u) % 128 == 0,
    ensures
        cos_wave(t) == cos_wave(u),
{
    lemma_phases_meet(t, u);
    lemma_same_cosine(t, u, t % 128, u % 128);
}

proof fn lemma_phases_meet(t: int, u: int)
    requires
        (t - u) % 128 == 0 || (t + u) % 128 == 0,
    ensures
        t % 128 == u % 128 || t % 128 + u % 128 == 128,
{
}

proof fn lemma_same_cosine(t: int, u: int, a: int, b: int)
    requires
        a == t % 128,
        b == u % 128,
        a == b || a + b == 128,
    ensures
        cos_wave(t) == cos_wave(u),
{
    let v = if a > 64 {
        128 - a
    } else {
        a
    };
    let w = if b > 64 {
        128 - b
    } else {
        b
    };
    assert(v == w);
}

/// Every higher wave runs through the first one in longer steps: the coefficients agree wherever
/// the phases `k * (2 * m + 1)` and `2 * j + 1` are the same or opposite, in a period of `4 * n`.
pub proof fn higher_waves_repeat_the_first(n: int, k: int, m: int, j: int)
    requires
        transform_size(n),
        (k * (2 * m + 1) - (2 * j + 1)) % (4 * n) == 0 || (k * (2 * m + 1) + (2 * j + 1)) % (4 * n)
            == 0,
    ensures
        dct_coef(n, k, m) == dct_coef(n, 1, j),
{
    let p = k * (2 * m + 1);
    let q = 2 * j + 1;
    assert(1 * (2 * j + 1) == q);
    if n == 4 {
        assert(8 * p - 8 * q == 128 * ((p - q) / 16) || 8 * p + 8 * q == 128 * ((p + q) / 16));
        lemma_same_phase(8 * p, 8 * q);
    } else if n == 8 {
        assert(4 * p - 4 * q == 128 * ((p - q) / 32) || 4 * p + 4 * q == 128 * ((p + q) / 32));
        lemma_same_phase(4 * p, 4 * q);
    } else if n == 16 {
        assert(2 * p - 2 * q == 128 * ((p - q) / 64) || 2 * p + 2 * q == 128 * ((p + q) / 64));
        lemma_same_phase(2 * p, 2 * q);
    } else {
        assert(p - q == 128 * ((p - q) / 128) || p + q == 128 * ((p + q) / 128));
        lemma_same_phase(p, q);
    }
}

/// The even waves of a size are the waves of half of it.
pub proof fn even_waves_are_of_half_the_size(n: int, k: int, m: int)
    requires
        n == 4 || n == 8 || n == 16,
    ensures
        dct_coef(2 * n, 2 * k, m) == dct_coef(n, k, m),
{
    let p = k * (2 * m + 1);
    assert((2 * k) * (2 * m + 1) == 2 * p) by (nonlinear_arith)
        requires
            p == k * (2 * m + 1),
    ;
    if n == 4 {
        assert(dct_coef(8, 2 * k, m) == cos_wave(4 * (2 * p)));
    } else if n == 8 {
        assert(dct_coef(16, 2 * k, m) == cos_wave(2 * (2 * p)));
    } else {
        assert((32int / 32) * ((2 * k) * (2 * m + 1)) == (32int / 16) * (k * (2 * m + 1)))
            by (nonlinear_arith);
    }
}

/// The sine transform of 4 points.
pub proof fn sine_rows_are_fixed(m: int)
    requires
        0 <= m < 4,
    ensures
        Kernel::Dst.coef(4, 0, m) == seq![29int, 55, 74, 84][m],
        Kernel::Dst.coef(4, 1, m) == seq![74int, 74, 0, -74][m],
        Kernel::Dst.coef(4, 2, m) == seq![84int, -29, -74, 55][m],
        Kernel::Dst.coef(4, 3, m) == seq![55int, -84, 74, -29][m],
        forall|n: int, k: int, j: int| #[trigger] Kernel::Dct.coef(n, k, j) == dct_coef(n, k, j),
{
    assert(m == 0 || m == 1 || m == 2 || m == 3);
}

proof fn lemma_weighted_total(
    kernel: Kernel,
    n: int,
    c: Seq<int>,
    m: int,
    w: spec_fn(int) -> int,
    v: spec_fn(int) -> int,
    k: int,
)
    requires
        forall|i: int| 0 <= i < k ==> #[trigger] w(i) == kernel.coef(n, i, m),
        forall|i: int| 0 <= i < k ==> #[trigger] v(i) == c[i],
    ensures
        kernel_sum(kernel, n, c, m, k) == weighted_total(w, v, k),
    decreases k,
{
    if k > 0 {
        lemma_weighted_total(kernel, n, c, m, w, v, k - 1);
    }
}

/// A block of residuals comes from two passes over its coefficients. The first takes each of the
/// first `nx` columns as a sum of waves down the block, to the nearest in units of 128, kept to 16
/// bits. The second takes each row as a sum of waves across, to the nearest in units that give the
/// bit depth. Coefficient `(c, k)`, `k` rows down, stands at `k * n + c`.
pub proof fn residuals_come_from_two_passes(
    kernel: Kernel,
    n: int,
    bit_depth: int,
    nx: int,
    coeff: Seq<int>,
    x: int,
    y: int,
    full: Seq<int>,
    mid: Seq<int>,
)
    requires
        kernel.supports(n),
        0 <= bit_depth <= 19,
        coeff.len() >= n * n,
        forall|c: int|
            0 <= c < n && c < nx ==> nearest(
                #[trigger] full[c],
                weighted_total(|k: int| kernel.coef(n, k, y), |k: int| coeff[k * n + c], n),
                128,
            ),
        forall|c: int|
            0 <= c < n ==> #[trigger] mid[c] == (if c >= nx {
                0
            } else if full[c] > 32767 {
                32767
            } else if full[c] < -32768 {
                -32768
            } else {
                full[c]
            }),
    ensures
        nearest(
            residual(kernel, n, bit_depth, nx, coeff, y, x),
            weighted_total(|c: int| kernel.coef(n, c, x), |c: int| mid[c], n),
            p2(20 - bit_depth),
        ),
{
    lemma_p2_values();
    let row = column_pass_row(kernel, n, nx, coeff, y);
    assert forall|c: int| 0 <= c < n implies mid[c] == #[trigger] row[c] by {
        if c < nx {
            let w = |k: int| kernel.coef(n, k, y);
            let v = |k: int| coeff[k * n + c];
            lemma_weighted_total(kernel, n, column(n, coeff, c), y, w, v, n);
            lemma_asr_nearest(full[c], kernel_point(kernel, n, column(n, coeff, c), y), 7);
        }
    }
    let w = |c: int| kernel.coef(n, c, x);
    let v = |c: int| mid[c];
    lemma_weighted_total(kernel, n, row, x, w, v, n);
    lemma_asr_nearest(0, kernel_point(kernel, n, row, x), 20 - bit_depth);
}

/// Residual `(x, y)` is stored at `y * n + x`, and what lies behind the block stays.
pub proof fn residuals_are_stored_by_rows<S: Coeff>(
    kernel: Kernel,
    n: int,
    bit_depth: int,
    nx: int,
    coeff: Seq<S>,
    before: Seq<S>,
    out: Seq<S>,
    x: int,
    y: int,
    j: int,
)
    requires
        inverse_transform_of(kernel, n, bit_depth, nx, coeff, before, out),
        0 <= x < n,
        0 <= y < n,
    ensures
        out.len() == before.len(),
        n * n <= j < before.len() ==> out[j] == before[j],
        out[y * n + x].value() == residual(
            kernel,
            n,
            bit_depth,
            nx,
            Seq::new(coeff.len(), |i: int| coeff[i].value()),
            y,
            x,
        ),
{
    lemma_row_major(y, x, n, n);
    assert(values(coeff) =~= Seq::new(coeff.len(), |i: int| coeff[i].value()));
    assert(out[y * n + x].value() == residual(
        kernel,
        n,
        bit_depth,
        nx,
        values(coeff),
        (y * n + x) / n,
        (y * n + x) % n,
    ));
}

/// Each size has a cosine transform, and 4 points a sine transform too.
pub proof fn transforms_exist_for_powers_of_two(n: int)
    ensures
        Kernel::Dct.supports(n) <==> n == p2(2) || n == p2(3) || n == p2(4) || n == p2(5),
        Kernel::Dst.supports(n) <==> n == 4,
        COEFF_LIMIT == p2(4) * p2(15),
{
    lemma_p2_values();
}

} // verus!
