//! Adding a residual block to its prediction.
use vstd::prelude::*;
use crate::arith::{
    clip16, clip3, clip3_i32, lemma_p2_mono, lemma_p2_pos, lemma_p2_values, lemma_row_major,
    lemma_stride_row, min_int, p2, pow2_i32,
};
use crate::transform::Coeff;

verus! {

/// The largest sample of a bit depth, as far as 16-bit samples go.
pub open spec fn sample_max_for(bit_depth: int) -> int {
    min_int(p2(bit_depth) - 1, 65535)
}

pub fn sample_max(bit_depth: u8) -> (r: i32)
    ensures
        r == sample_max_for(bit_depth as int),
        0 <= r <= 65535,
{
    proof {
        lemma_p2_values();
        lemma_p2_pos(bit_depth as int);
    }
    if bit_depth <= 15 {
        proof {
            lemma_p2_mono(bit_depth as int, 15);
        }
        pow2_i32(bit_depth as u32) - 1
    } else {
        proof {
            lemma_p2_mono(16, bit_depth as int);
        }
        65535
    }
}

/// A buffer of `len` samples holds `n` rows of `n` samples at distance `stride`.
pub open spec fn holds_block(len: int, stride: int, n: int) -> bool {
    n > 0 && stride >= n && (n - 1) * stride + n <= len
}

/// `dst` holds `n` rows of `n` samples at distance `stride`.
pub fn has_full_dst(dst: &[u16], stride: usize, n: usize) -> (r: bool)
    ensures
        r == holds_block(dst.len() as int, stride as int, n as int),
{
    if n == 0 || stride < n {
        return false;
    }
    let last_row: Option<usize> = (n - 1).checked_mul(stride);
    match last_row {
        None => false,
        Some(start) => match start.checked_add(n) {
            None => false,
            Some(end) => dst.len() >= end,
        },
    }
}

/// The whole block is valid and all three buffers hold it.
pub fn can_reconstruct_full_block<R: Coeff>(
    dst: &[u16],
    stride: usize,
    pred: &[u16],
    res: &[R],
    n: usize,
    valid_w: usize,
    valid_h: usize,
    bit_depth: u8,
) -> (r: bool)
    ensures
        r == (valid_w == n && valid_h == n && bit_depth != 0 && holds_block(
            dst.len() as int,
            stride as int,
            n as int,
        ) && n * n <= pred.len() && n * n <= res.len()),
{
    match n.checked_mul(n) {
        None => false,
        Some(n2) => valid_w == n && valid_h == n && bit_depth != 0 && has_full_dst(dst, stride, n)
            && pred.len() >= n2 && res.len() >= n2,
    }
}

/// A reconstructed sample: prediction plus residual, clipped to the sample range.
pub open spec fn reconstructed(pred: int, res: int, bit_depth: int) -> int {
    clip3(0, sample_max_for(bit_depth), pred + res)
}

/// Both block buffers hold `n` by `n` values, and there is room for a row.
pub open spec fn block_present(n: int, stride: int, pred_len: int, res_len: int) -> bool {
    n > 0 && stride > 0 && n * n <= pred_len && n * n <= res_len
}

/// Destination index `j` lies in the valid part of the block.
pub open spec fn in_valid_part(j: int, stride: int, n: int, valid_w: int, valid_h: int) -> bool {
    j % stride < min_int(valid_w, n) && j / stride < min_int(valid_h, n)
}

/// Every sum in the valid part of the block stays in 32 bits.
pub open spec fn sums_fit<R: Coeff>(
    pred: Seq<u16>,
    res: Seq<R>,
    n: int,
    valid_w: int,
    valid_h: int,
) -> bool {
    forall|i: int|
        0 <= i < n * n && i % n < valid_w && i / n < valid_h ==> pred[i] + (
        #[trigger] res[i]).value() <= i32::MAX
}

/// A destination after a block was added: the valid part of the block holds the sums, the rest is
/// as before, and so is everything if the block is not there.
pub open spec fn residual_added<R: Coeff>(
    before: Seq<u16>,
    after: Seq<u16>,
    stride: int,
    pred: Seq<u16>,
    res: Seq<R>,
    n: int,
    valid_w: int,
    valid_h: int,
    bit_depth: int,
) -> bool {
    &&& after.len() == before.len()
    &&& if block_present(n, stride, pred.len() as int, res.len() as int) {
        forall|j: int|
            0 <= j < after.len() ==> #[trigger] after[j] == (if in_valid_part(
                j,
                stride,
                n,
                valid_w,
                valid_h,
            ) {
                reconstructed(
                    pred[(j / stride) * n + j % stride] as int,
                    res[(j / stride) * n + j % stride].value(),
                    bit_depth,
                )
            } else {
                before[j] as int
            })
    } else {
        after == before
    }
}

/// Adds an `n` by `n` residual to a prediction and stores the `valid_w` by `valid_h` part that lies
/// in the picture, at row distance `stride`. Samples that `dst` does not hold are dropped; buffers
/// too short for the block leave `dst` unchanged.
pub fn add_residual_into<R: Coeff>(
    dst: &mut [u16],
    stride: usize,
    pred: &[u16],
    res: &[R],
    n: usize,
    valid_w: usize,
    valid_h: usize,
    bit_depth: u8,
)
    requires
        block_present(n as int, stride as int, pred.len() as int, res.len() as int) ==> sums_fit(
            pred@,
            res@,
            n as int,
            valid_w as int,
            valid_h as int,
        ),
    ensures
        residual_added(
            old(dst)@,
            final(dst)@,
            stride as int,
            pred@,
            res@,
            n as int,
            valid_w as int,
            valid_h as int,
            bit_depth as int,
        ),
{
    if n == 0 || stride == 0 {
        return;
    }
    let n2: usize = match n.checked_mul(n) {
        None => {
            assert(pred@.len() == pred.len());
            return;
        },
        Some(v) => v,
    };
    if pred.len() < n2 || res.len() < n2 {
        return;
    }
    let cap: usize = if n < stride {
        n
    } else {
        stride
    };
    let cols: usize = if valid_w < cap {
        valid_w
    } else {
        cap
    };
    let rows: usize = if valid_h < n {
        valid_h
    } else {
        n
    };
    let max: i32 = sample_max(bit_depth);
    let ghost before = dst@;
    let len: usize = dst.len();
    let mut y: usize = 0;
    let mut start: usize = 0;
    proof {
        assert(0 * stride == 0) by (nonlinear_arith);
        assert forall|j: int| 0 <= j < len implies #[trigger] (j / stride as int) >= 0 by {
            assert(j / stride as int >= 0) by (nonlinear_arith)
                requires
                    j >= 0,
                    stride > 0,
            ;
        }
    }
    while y < rows && start < len
        invariant
            n > 0,
            stride > 0,
            n2 == n * n,
            n2 <= pred.len(),
            n2 <= res.len(),
            cols <= n,
            cols <= stride,
            rows <= n,
            y <= rows,
            len == before.len(),
            dst.len() == len,
            before == old(dst)@,
            start <= len,
            start <= y * stride,
            start == len || start == y * stride,
            max == sample_max_for(bit_depth as int),
            0 <= max <= 65535,
            cols <= valid_w,
            rows <= valid_h,
            sums_fit(pred@, res@, n as int, valid_w as int, valid_h as int),
            forall|j: int|
                0 <= j < len ==> #[trigger] dst@[j] == (if j % (stride as int) < cols && j / (
                stride as int) < y {
                    reconstructed(
                        pred@[(j / stride as int) * n + j % stride as int] as int,
                        res@[(j / stride as int) * n + j % stride as int].value(),
                        bit_depth as int,
                    )
                } else {
                    before[j] as int
                }),
        decreases rows - y,
    {
        let room: usize = len - start;
        let take: usize = if cols < room {
            cols
        } else {
            room
        };
        let ghost row_before = dst@;
        for x in 0..take
            invariant
                n > 0,
                stride > 0,
                n2 == n * n,
                n2 <= pred.len(),
                n2 <= res.len(),
                y < n,
                take <= cols,
                cols <= n,
                start + take <= len,
                start == y * stride,
                dst.len() == len,
                row_before.len() == len,
                max == sample_max_for(bit_depth as int),
                0 <= max <= 65535,
                cols <= valid_w,
                y < valid_h,
                sums_fit(pred@, res@, n as int, valid_w as int, valid_h as int),
                forall|j: int|
                    0 <= j < len ==> #[trigger] dst@[j] == (if start <= j < start + x {
                        reconstructed(
                            pred@[y * n + (j - start)] as int,
                            res@[y * n + (j - start)].value(),
                            bit_depth as int,
                        )
                    } else {
                        row_before[j] as int
                    }),
        {
            proof {
                lemma_row_major(y as int, x as int, n as int, n as int);
                assert(0 <= y * n) by (nonlinear_arith);
                lemma_stride_row(y * n + x, n as int, y as int);
            }
            let p: i32 = pred[y * n + x] as i32;
            let r: i32 = res[y * n + x].to_i32();
            dst[start + x] = clip3_i32(0, max, p + r) as u16;
        }
        proof {
            assert forall|j: int| 0 <= j < len implies #[trigger] dst@[j] == (if j % (stride as int)
                < cols && j / (stride as int) < y + 1 {
                reconstructed(
                    pred@[(j / stride as int) * n + j % stride as int] as int,
                    res@[(j / stride as int) * n + j % stride as int].value(),
                    bit_depth as int,
                )
            } else {
                before[j] as int
            }) by {
                assert(row_before[j] == row_before[j]);
                lemma_stride_row(j, stride as int, y as int);
            }
            assert(y * stride + stride == (y + 1) * stride) by (nonlinear_arith);
        }
        y = y + 1;
        start = if stride < room {
            start + stride
        } else {
            len
        };
    }
    proof {
        assert forall|j: int| 0 <= j < len implies #[trigger] dst@[j] == (if in_valid_part(
            j,
            stride as int,
            n as int,
            valid_w as int,
            valid_h as int,
        ) {
            reconstructed(
                pred@[(j / stride as int) * n + j % stride as int] as int,
                res@[(j / stride as int) * n + j % stride as int].value(),
                bit_depth as int,
            )
        } else {
            before[j] as int
        }) by {
            lemma_stride_row(j, stride as int, y as int);
            let q = j / stride as int;
            if q >= y {
                assert(q * stride >= y * stride) by (nonlinear_arith)
                    requires
                        q >= y,
                        stride > 0,
                ;
                lemma_stride_row(j, stride as int, q);
            }
        }
    }
}

/// A buffer after residuals were stored in it in 16 bits; behind them it is as before.
pub open spec fn stored_in_16_bits(before: Seq<i16>, after: Seq<i16>, src: Seq<i32>) -> bool {
    &&& after.len() == before.len()
    &&& forall|i: int|
        0 <= i < after.len() ==> #[trigger] after[i] == (if i < src.len() {
            clip16(src[i] as int)
        } else {
            before[i] as int
        })
}

/// Stores 32-bit residuals in 16 bits, saturating, as far as both buffers reach.
pub fn narrow_i32_to_i16(src: &[i32], dst: &mut [i16])
    ensures
        stored_in_16_bits(old(dst)@, final(dst)@, src@),
{
    let len: usize = if src.len() < dst.len() {
        src.len()
    } else {
        dst.len()
    };
    for i in 0..len
        invariant
            len <= src.len(),
            len <= dst.len(),
            dst.len() == old(dst).len(),
            forall|j: int|
                0 <= j < dst.len() ==> #[trigger] dst@[j] == (if j < i {
                    clip16(src@[j] as int)
                } else {
                    old(dst)@[j] as int
                }),
    {
        dst[i] = clip3_i32(-32768, 32767, src[i]) as i16;
    }
}

/// A zero residual reproduces a valid prediction.
pub proof fn zero_residual_keeps_prediction(pred: int, bit_depth: int)
    requires
        0 <= pred <= sample_max_for(bit_depth),
    ensures
        reconstructed(pred, 0, bit_depth) == pred,
{
}

/// Reconstruction always yields valid samples, and more residual never yields less.
pub proof fn reconstruction_is_bounded_and_monotone(pred: int, a: int, b: int, bit_depth: int)
    requires
        a <= b,
    ensures
        0 <= reconstructed(pred, a, bit_depth) <= reconstructed(pred, b, bit_depth),
        reconstructed(pred, b, bit_depth) <= sample_max_for(bit_depth),
{
    lemma_p2_pos(bit_depth);
}

/// A reconstructed sample is the sum of prediction and residual, or the nearer end of the sample
/// range where the sum lies outside it. No sample has more than 16 bits.
pub proof fn sums_are_limited_to_the_depth(pred: int, res: int, bit_depth: int)
    requires
        0 <= bit_depth,
    ensures
        ({
            let v = reconstructed(pred, res, bit_depth);
            let end = if bit_depth < 16 {
                p2(bit_depth)
            } else {
                65536
            };
            &&& 0 <= pred + res < end ==> v == pred + res
            &&& pred + res < 0 ==> v == 0
            &&& pred + res >= end ==> v == end - 1
        }),
{
    lemma_p2_values();
    lemma_p2_pos(bit_depth);
    if bit_depth < 16 {
        lemma_p2_mono(bit_depth, 16);
    } else {
        lemma_p2_mono(16, bit_depth);
    }
}

/// Destination sample `y * stride + x` takes value `y * n + x` of the block, in the corner of the
/// block that is valid.
pub proof fn valid_corners_are_stored(
    x: int,
    y: int,
    stride: int,
    n: int,
    valid_w: int,
    valid_h: int,
)
    requires
        0 <= x < stride,
        0 <= y,
    ensures
        ({
            let j = y * stride + x;
            &&& in_valid_part(j, stride, n, valid_w, valid_h) <==> x < valid_w && y < valid_h && x
                < n && y < n
            &&& (j / stride) * n + j % stride == y * n + x
        }),
{
    lemma_row_major(y, x, stride, y + 1);
}

/// A block is there if both buffers hold all of its positions, and rows have a length.
pub proof fn blocks_are_there_whole(n: int, stride: int, pred_len: int, res_len: int, x: int, y: int)
    requires
        0 <= x < n,
        0 <= y < n,
    ensures
        block_present(n, stride, pred_len, res_len) ==> stride > 0 && y * n + x < pred_len && y * n
            + x < res_len,
        stride > 0 && (n - 1) * n + (n - 1) < pred_len && (n - 1) * n + (n - 1) < res_len
            ==> block_present(n, stride, pred_len, res_len),
{
    lemma_row_major(y, x, n, n);
    assert((n - 1) * n + (n - 1) == n * n - 1) by (nonlinear_arith);
}

/// Sample `(x, y)` of the destination, at `y * stride + x`, becomes the sum of prediction and
/// residual at `y * n + x` in the valid part of the block, and stays everywhere else.
pub proof fn sums_are_stored_in_place<R: Coeff>(
    before: Seq<u16>,
    after: Seq<u16>,
    stride: int,
    pred: Seq<u16>,
    res: Seq<R>,
    n: int,
    valid_w: int,
    valid_h: int,
    bit_depth: int,
    x: int,
    y: int,
)
    requires
        residual_added(before, after, stride, pred, res, n, valid_w, valid_h, bit_depth),
        0 <= x < stride,
        0 <= y,
        y * stride + x < before.len(),
    ensures
        after.len() == before.len(),
        after[y * stride + x] == (if n * n <= pred.len() && n * n <= res.len() && x < n && y < n
            && x < valid_w && y < valid_h {
            reconstructed(pred[y * n + x] as int, res[y * n + x].value(), bit_depth)
        } else {
            before[y * stride + x] as int
        }),
{
    valid_corners_are_stored(x, y, stride, n, valid_w, valid_h);
    lemma_row_major(y, x, stride, y + 1);
}

/// A buffer holds a block if it holds its last sample and the rows do not run into each other.
pub proof fn full_blocks_have_their_last_sample(len: int, stride: int, n: int, x: int, y: int)
    requires
        0 <= x < n,
        0 <= y < n,
    ensures
        holds_block(len, stride, n) ==> y * stride + x < len && y * stride + x < (y + 1) * stride,
        stride >= n && (n - 1) * stride + (n - 1) < len ==> holds_block(len, stride, n),
        stride < n ==> !holds_block(len, stride, n),
{
    assert(stride >= n ==> y * stride <= (n - 1) * stride && (y + 1) * stride == y * stride + stride)
        by (nonlinear_arith)
        requires
            0 <= y <= n - 1,
            n > 0,
    ;
}

/// A residual outside 16 bits is stored as the nearest number inside.
pub proof fn residuals_saturate_at_16_bits(
    before: Seq<i16>,
    after: Seq<i16>,
    src: Seq<i32>,
    i: int,
)
    requires
        stored_in_16_bits(before, after, src),
        0 <= i < before.len(),
    ensures
        after.len() == before.len(),
        i >= src.len() ==> after[i] == before[i],
        i < src.len() && -32768 <= src[i] <= 32767 ==> after[i] == src[i],
        i < src.len() && src[i] > 32767 ==> after[i] == 32767,
        i < src.len() && src[i] < -32768 ==> after[i] == -32768,
{
}

} // verus!
