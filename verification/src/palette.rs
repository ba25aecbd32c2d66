//! Palette coding: binarisations, the palette predictor, index maps and reconstruction.
use vstd::prelude::*;
use crate::arith::{
    lemma_p2_mono, lemma_p2_pos, lemma_p2_values, lemma_row_major, lemma_row_major_split, max_int,
    min_int, p2, pow2_i64,
};

verus! {

/// Run type that repeats the indices above.
pub const COPY_ABOVE_MODE: u8 = 1;

/// What can be asked of the entropy decoder.
pub enum Bin {
    /// A run type flag; the flag of the final run shares its context.
    RunType,
    Transpose,
    /// Bin of a run prefix.
    RunPrefix { bin: int, copy_above: bool },
    /// First bin of the prefix of an index run, with a context that depends on the index.
    RunPrefixIndex { index: int },
    Bypass,
    /// Several bypass bins as an integer, most significant first.
    BypassBits { n: int },
}

/// The entropy decoder as palette coding sees it. It is deterministic: what it answers and the
/// state it moves to depend on its state and the question.
pub trait PaletteBits: Sized {
    spec fn answer(self, bin: Bin) -> int;

    spec fn after(self, bin: Bin) -> Self;

    fn run_type_flag(&mut self) -> (r: u8)
        ensures
            r == old(self).answer(Bin::RunType),
            *final(self) == old(self).after(Bin::RunType),
    ;

    fn transpose_flag(&mut self) -> (r: u8)
        ensures
            r == old(self).answer(Bin::Transpose),
            *final(self) == old(self).after(Bin::Transpose),
    ;

    fn run_prefix_bin(&mut self, bin_idx: usize, copy_above: bool) -> (r: u8)
        ensures
            r == old(self).answer(Bin::RunPrefix { bin: bin_idx as int, copy_above }),
            *final(self) == old(self).after(Bin::RunPrefix { bin: bin_idx as int, copy_above }),
    ;

    fn run_prefix_index_bin(&mut self, palette_index: u32) -> (r: u8)
        ensures
            r == old(self).answer(Bin::RunPrefixIndex { index: palette_index as int }),
            *final(self) == old(self).after(Bin::RunPrefixIndex { index: palette_index as int }),
    ;

    fn bypass(&mut self) -> (r: u8)
        ensures
            r == old(self).answer(Bin::Bypass),
            r <= 1,
            *final(self) == old(self).after(Bin::Bypass),
    ;

    fn bypass_bits(&mut self, n: u32) -> (r: u32)
        ensures
            r == old(self).answer(Bin::BypassBits { n: n as int }),
            n < 32 ==> r < p2(n as int),
            *final(self) == old(self).after(Bin::BypassBits { n: n as int }),
    ;
}

/// Bins given in advance, as an entropy decoder; past their end all bins are zero.
pub struct BinList {
    pub bins: Vec<u8>,
    pub pos: usize,
}

impl BinList {
    /// A decoder at the start of the bins.
    pub fn new(bins: Vec<u8>) -> (r: Self)
        ensures
            r.bins@ == bins@,
            r.pos == 0,
    {
        BinList { bins, pos: 0 }
    }

    /// Bin at a position.
    pub open spec fn bin_at(self, i: int) -> int {
        if 0 <= i < self.bins@.len() && self.bins@[i] != 0 {
            1
        } else {
            0
        }
    }

    /// The next `n` bins as an integer, modulo 2 to the power of 32.
    pub open spec fn value(self, n: int) -> int
        decreases n,
    {
        if n <= 0 {
            0
        } else {
            wrap32(2 * self.value(n - 1) + self.bin_at(self.pos + n - 1))
        }
    }

    /// The decoder `n` bins further on, at most at the end.
    pub open spec fn skip(self, n: int) -> BinList {
        BinList {
            bins: self.bins,
            pos: if self.pos + n < self.bins@.len() {
                (self.pos + n) as usize
            } else if self.pos < self.bins@.len() {
                self.bins@.len() as usize
            } else {
                self.pos
            },
        }
    }

    fn next_bin(&mut self) -> (r: u8)
        ensures
            r == old(self).bin_at(old(self).pos as int),
            r <= 1,
            *final(self) == old(self).skip(1),
    {
        if self.pos < self.bins.len() {
            let b: u8 = self.bins[self.pos];
            self.pos = self.pos + 1;
            if b != 0 {
                1
            } else {
                0
            }
        } else {
            0
        }
    }

    proof fn lemma_value_bound(self, n: int)
        requires
            0 <= n < 32,
        ensures
            0 <= self.value(n) < p2(n),
        decreases n,
    {
        lemma_p2_values();
        lemma_p2_bound_31(n);
        if n > 0 {
            self.lemma_value_bound(n - 1);
            assert(p2(n) == 2 * p2(n - 1));
        }
    }

    proof fn lemma_value_range(self, n: int)
        ensures
            0 <= self.value(n) < 0x1_0000_0000,
    {
    }
}

impl PaletteBits for BinList {
    open spec fn answer(self, bin: Bin) -> int {
        match bin {
            Bin::BypassBits { n } => self.value(n),
            _ => self.bin_at(self.pos as int),
        }
    }

    open spec fn after(self, bin: Bin) -> Self {
        match bin {
            Bin::BypassBits { n } => self.skip(n),
            _ => self.skip(1),
        }
    }

    fn run_type_flag(&mut self) -> u8 {
        self.next_bin()
    }

    fn transpose_flag(&mut self) -> u8 {
        self.next_bin()
    }

    fn run_prefix_bin(&mut self, bin_idx: usize, copy_above: bool) -> u8 {
        self.next_bin()
    }

    fn run_prefix_index_bin(&mut self, palette_index: u32) -> u8 {
        self.next_bin()
    }

    fn bypass(&mut self) -> u8 {
        self.next_bin()
    }

    fn bypass_bits(&mut self, n: u32) -> u32 {
        let mut v: u32 = 0;
        let mut i: u32 = 0;
        let len: usize = self.bins.len();
        while i < n
            invariant
                i <= n,
                len == old(self).bins@.len(),
                *self == old(self).skip(i as int),
                v == old(self).value(i as int),
            decreases n - i,
        {
            let ghost before = *self;
            let b: u8 = self.next_bin();
            proof {
                assert(before.bin_at(before.pos as int) == old(self).bin_at(old(self).pos + i));
                old(self).lemma_value_range(i as int);
            }
            v = ((2 * (v as u64) + b as u64) % 0x1_0000_0000) as u32;
            i = i + 1;
        }
        proof {
            if n < 32 {
                old(self).lemma_value_bound(n as int);
            }
        }
        v
    }
}

/// Number of leading one bins, counted on from `p`, and the decoder after the closing zero.
/// Counting stops at 32.
pub open spec fn unary<B: PaletteBits>(bits: B, p: int) -> (int, B)
    decreases 32 - p,
{
    if p >= 32 {
        (32, bits)
    } else if bits.answer(Bin::Bypass) == 0 {
        (p, bits.after(Bin::Bypass))
    } else {
        unary(bits.after(Bin::Bypass), p + 1)
    }
}

/// The value modulo 2 to the power of 32.
pub open spec fn wrap32(v: int) -> int {
    v % 0x1_0000_0000
}

/// Exp-Golomb code of order `k` with a prefix of ones: the value and the decoder after it. A prefix
/// of 32 ones gives 0.
pub open spec fn exp_golomb<B: PaletteBits>(bits: B, k: int) -> (int, B) {
    let (p, b) = unary(bits, 0);
    if p >= 32 {
        (0, b)
    } else if p + k > 0 {
        (
            wrap32((p2(p) - 1) * p2(k) + b.answer(Bin::BypassBits { n: p + k })),
            b.after(Bin::BypassBits { n: p + k }),
        )
    } else {
        (0, b)
    }
}

fn read_unary<B: PaletteBits>(bits: &mut B) -> (r: u32)
    ensures
        (r as int, *final(bits)) == unary(*old(bits), 0),
        r <= 32,
{
    let mut prefix: u32 = 0;
    while prefix < 32
        invariant_except_break
            prefix <= 32,
            unary(*old(bits), 0) == unary(*bits, prefix as int),
        ensures
            prefix <= 32,
            (prefix as int, *bits) == unary(*old(bits), 0),
        decreases 32 - prefix,
    {
        if bits.bypass() == 0 {
            break;
        }
        prefix = prefix + 1;
    }
    prefix
}

/// Reads an Exp-Golomb code of order 0.
pub fn read_eg0<B: PaletteBits>(bits: &mut B) -> (r: u32)
    ensures
        (r as int, *final(bits)) == exp_golomb(*old(bits), 0),
{
    proof {
        lemma_p2_values();
    }
    read_egk(bits, 0)
}

/// Reads an Exp-Golomb code of order `k`.
pub fn read_egk<B: PaletteBits>(bits: &mut B, k: u32) -> (r: u32)
    requires
        k < 32 || unary(*old(bits), 0).0 >= 32,
    ensures
        (r as int, *final(bits)) == exp_golomb(*old(bits), k as int),
{
    let prefix: u32 = read_unary(bits);
    if prefix > 31 {
        return 0;
    }
    let total: u32 = prefix + k;
    if total == 0 {
        return 0;
    }
    let suffix: u32 = bits.bypass_bits(total);
    proof {
        lemma_p2_bound_31(prefix as int);
        lemma_p2_bound_31(k as int);
    }
    let a: i64 = pow2_i64(prefix) - 1;
    let b: i64 = pow2_i64(k);
    proof {
        assert(0 <= a * b <= 0x8000_0000 * 0x8000_0000) by (nonlinear_arith)
            requires
                0 <= a < 0x8000_0000,
                0 < b <= 0x8000_0000,
        ;
    }
    ((a * b + suffix as i64) % 0x1_0000_0000) as u32
}

proof fn lemma_p2_bound_31(k: int)
    requires
        0 <= k <= 31,
    ensures
        1 <= p2(k) <= 0x8000_0000,
{
    lemma_p2_pos(k);
    lemma_p2_mono(k, 31);
    lemma_p2_values();
}

/// Integer part of the base-2 logarithm; 0 for values below 2.
pub open spec fn log2_floor(n: int) -> int
    decreases n,
{
    if n <= 1 {
        0
    } else {
        1 + log2_floor(n / 2)
    }
}

pub proof fn lemma_log2_floor(n: int)
    requires
        n >= 1,
    ensures
        log2_floor(n) >= 0,
        p2(log2_floor(n)) <= n < p2(log2_floor(n) + 1),
    decreases n,
{
    if n > 1 {
        lemma_log2_floor(n / 2);
        let k = log2_floor(n / 2);
        assert(p2(k + 1) == 2 * p2(k));
        assert(p2(k + 2) == 2 * p2(k + 1));
    } else {
        lemma_p2_values();
    }
}

/// A logarithm is bounded by that of a power above.
proof fn lemma_log2_below(n: int, k: int)
    requires
        1 <= n < p2(k),
        k >= 0,
    ensures
        log2_floor(n) < k,
{
    lemma_log2_floor(n);
    if log2_floor(n) >= k {
        lemma_p2_mono(k, log2_floor(n));
    }
}

fn log2_floor_of(n: u32) -> (r: u32)
    requires
        1 <= n,
    ensures
        r == log2_floor(n as int),
        r < 32,
{
    proof {
        lemma_p2_bound_31(31);
        lemma_p2_values();
        lemma_log2_below(n as int, 32);
    }
    let mut k: u32 = 0;
    let mut m: u32 = n;
    while m > 1
        invariant
            m >= 1,
            k + log2_floor(m as int) == log2_floor(n as int),
            log2_floor(n as int) < 32,
        decreases m,
    {
        proof {
            lemma_log2_floor(m as int / 2);
        }
        m = m / 2;
        k = k + 1;
    }
    k
}

/// Truncated binary code of a value below `c_max`, and the decoder after it. A single value takes
/// no bins.
pub open spec fn truncated_binary<B: PaletteBits>(bits: B, c_max: int) -> (int, B) {
    if c_max <= 1 {
        (0, bits)
    } else {
        let k = log2_floor(c_max);
        let u = p2(k + 1) - c_max;
        let head = bits.answer(Bin::BypassBits { n: k });
        let b = bits.after(Bin::BypassBits { n: k });
        if head < u {
            (head, b)
        } else {
            (2 * head + b.answer(Bin::Bypass) - u, b.after(Bin::Bypass))
        }
    }
}

/// Reads a truncated binary code of a value below `c_max`.
pub fn read_truncated_binary<B: PaletteBits>(bits: &mut B, c_max: u32) -> (r: u32)
    requires
        c_max < 0x8000_0000,
    ensures
        (r as int, *final(bits)) == truncated_binary(*old(bits), c_max as int),
        r == 0 || r < c_max,
{
    if c_max <= 1 {
        return 0;
    }
    let k: u32 = log2_floor_of(c_max);
    proof {
        lemma_p2_values();
        lemma_log2_floor(c_max as int);
        lemma_p2_bound_31(31);
        lemma_log2_below(c_max as int, 31);
        lemma_p2_bound_31(k as int + 1);
        assert(p2(k as int + 1) == 2 * p2(k as int));
    }
    let u: u32 = pow2_u32(k + 1) - c_max;
    let prefix: u32 = bits.bypass_bits(k);
    if prefix < u {
        prefix
    } else {
        let extra: u32 = bits.bypass() as u32;
        2 * prefix + extra - u
    }
}

fn pow2_u32(k: u32) -> (r: u32)
    requires
        k <= 31,
    ensures
        r == p2(k as int),
{
    proof {
        lemma_p2_bound_31(k as int);
    }
    pow2_i64(k) as u32
}

/// Rice parameter of the number of palette indices.
pub open spec fn index_count_rice(max_palette_index: int) -> int {
    3 + (max_palette_index + 1) / 8
}

/// Number of palette indices minus one: a Rice code with at most three leading ones, else an
/// Exp-Golomb code on top of the largest such value.
pub open spec fn index_count<B: PaletteBits>(bits: B, rice: int, prefix: int) -> (int, B)
    decreases 4 - prefix,
{
    if prefix >= 4 {
        let (v, b) = exp_golomb(bits, rice + 1);
        (wrap32(4 * p2(rice) + v), b)
    } else if bits.answer(Bin::Bypass) == 0 {
        let b = bits.after(Bin::Bypass);
        (
            wrap32(prefix * p2(rice) + b.answer(Bin::BypassBits { n: rice })),
            b.after(Bin::BypassBits { n: rice }),
        )
    } else {
        index_count(bits.after(Bin::Bypass), rice, prefix + 1)
    }
}

/// The number of palette indices can be read, after `prefix` leading ones: the values of its code
/// are in range, or its prefix is short, or too long to have a value.
pub open spec fn index_count_fits<B: PaletteBits>(bits: B, max_index: int, prefix: int) -> bool
    decreases 4 - prefix,
{
    if max_index <= 222 {
        true
    } else if max_index > 230 {
        false
    } else if prefix >= 4 {
        unary(bits, 0).0 >= 32
    } else {
        bits.answer(Bin::Bypass) == 0 || index_count_fits(
            bits.after(Bin::Bypass),
            max_index,
            prefix + 1,
        )
    }
}

/// Reads the number of palette indices minus one.
pub fn read_num_palette_indices<B: PaletteBits>(bits: &mut B, max_palette_index: u32) -> (r: u32)
    requires
        index_count_fits(*old(bits), max_palette_index as int, 0),
    ensures
        (r as int, *final(bits)) == index_count(
            *old(bits),
            index_count_rice(max_palette_index as int),
            0,
        ),
{
    let rice: u32 = 3 + (max_palette_index + 1) / 8;
    proof {
        lemma_p2_bound_31(rice as int);
    }
    let unit: i64 = pow2_i64(rice);
    let mut prefix: u32 = 0;
    while prefix < 4
        invariant
            3 <= rice <= 31,
            rice <= 30 || max_palette_index > 222,
            index_count_fits(*bits, max_palette_index as int, prefix as int),
            rice == index_count_rice(max_palette_index as int),
            unit == p2(rice as int),
            1 <= unit <= 0x8000_0000,
            prefix <= 4,
            index_count(*old(bits), rice as int, 0) == index_count(
                *bits,
                rice as int,
                prefix as int,
            ),
        decreases 4 - prefix,
    {
        if bits.bypass() == 0 {
            let suffix: u32 = bits.bypass_bits(rice);
            proof {
                assert(0 <= prefix * unit <= 3 * 0x8000_0000) by (nonlinear_arith)
                    requires
                        0 <= prefix <= 3,
                        1 <= unit <= 0x8000_0000,
                ;
            }
            return ((prefix as i64 * unit + suffix as i64) % 0x1_0000_0000) as u32;
        }
        prefix = prefix + 1;
    }
    let v: u32 = read_egk(bits, rice + 1);
    ((4 * unit + v as i64) % 0x1_0000_0000) as u32
}

/// Number of leading nonzero bins of a run prefix, counted on from `p` up to a limit.
pub open spec fn run_prefix<B: PaletteBits>(
    bits: B,
    max_prefix: int,
    copy_above: bool,
    palette_index: int,
    p: int,
) -> (int, B)
    decreases max_prefix - p,
{
    if p >= max_prefix {
        (p, bits)
    } else {
        let q = if !copy_above && p == 0 {
            Bin::RunPrefixIndex { index: palette_index }
        } else {
            Bin::RunPrefix { bin: p, copy_above }
        };
        if bits.answer(q) == 0 {
            (p, bits.after(q))
        } else {
            run_prefix(bits.after(q), max_prefix, copy_above, palette_index, p + 1)
        }
    }
}

/// Length of a run minus one, at most `max_run`, and the decoder after it. The prefix gives the
/// position of the leading bit, a truncated binary suffix the bits below.
pub open spec fn run_length<B: PaletteBits>(
    bits: B,
    max_run: int,
    copy_above: bool,
    palette_index: int,
) -> (int, B) {
    if max_run == 0 {
        (0, bits)
    } else {
        let (p, b) = run_prefix(bits, log2_floor(max_run) + 1, copy_above, palette_index, 0);
        if p < 2 {
            (p, b)
        } else {
            let base = p2(p - 1);
            if max_run == base {
                (base, b)
            } else {
                let symbols = if 2 * base > max_run {
                    max_run - base + 1
                } else {
                    base
                };
                let (v, b2) = truncated_binary(b, symbols);
                (base + v, b2)
            }
        }
    }
}

/// Reads the length of a run minus one.
pub fn decode_run<B: PaletteBits>(
    bits: &mut B,
    palette_max_run: u32,
    copy_above: bool,
    palette_index: u32,
) -> (r: u32)
    requires
        palette_max_run < 0x8000_0000,
    ensures
        (r as int, *final(bits)) == run_length(
            *old(bits),
            palette_max_run as int,
            copy_above,
            palette_index as int,
        ),
        r <= palette_max_run,
{
    if palette_max_run == 0 {
        return 0;
    }
    let max_prefix: u32 = log2_floor_of(palette_max_run) + 1;
    let mut prefix: u32 = 0;
    let ghost whole = run_prefix(
        *bits,
        max_prefix as int,
        copy_above,
        palette_index as int,
        0,
    );
    while prefix < max_prefix
        invariant_except_break
            prefix <= max_prefix <= 32,
            whole == run_prefix(
                *bits,
                max_prefix as int,
                copy_above,
                palette_index as int,
                prefix as int,
            ),
        ensures
            prefix <= max_prefix,
            whole == (prefix as int, *bits),
        decreases max_prefix - prefix,
    {
        let bin: u8 = if !copy_above && prefix == 0 {
            bits.run_prefix_index_bin(palette_index)
        } else {
            bits.run_prefix_bin(prefix as usize, copy_above)
        };
        if bin == 0 {
            break;
        }
        prefix = prefix + 1;
    }
    proof {
        lemma_p2_values();
        lemma_log2_floor(palette_max_run as int);
    }
    if prefix < 2 {
        return prefix;
    }
    proof {
        lemma_p2_bound_31(31);
        lemma_log2_below(palette_max_run as int, 31);
        lemma_p2_mono(prefix as int - 1, max_prefix as int - 1);
        lemma_p2_bound_31(prefix as int - 1);
        lemma_p2_mono(prefix as int - 1, 30);
    }
    let base: u32 = pow2_u32(prefix - 1);
    if palette_max_run == base {
        return base;
    }
    let symbols: u32 = if 2 * base > palette_max_run {
        palette_max_run - base + 1
    } else {
        base
    };
    base + read_truncated_binary(bits, symbols)
}

/// Position of scan number `i` in a block of the given size. The scan runs along the rows, forth
/// and back; transposition takes no part in it.
pub open spec fn traverse(i: int, size: int) -> (int, int) {
    let y = i / size;
    let c = i % size;
    (
        if y % 2 == 1 {
            size - 1 - c
        } else {
            c
        },
        y,
    )
}

/// Scan number of a position.
pub open spec fn traverse_inv(x: int, y: int, size: int) -> int {
    y * size + if y % 2 == 1 {
        size - 1 - x
    } else {
        x
    }
}

/// Position of a scan number.
pub fn scan_pos(i: usize, size: usize, _transpose: bool) -> (r: (usize, usize))
    requires
        size > 0,
    ensures
        (r.0 as int, r.1 as int) == traverse(i as int, size as int),
{
    let y: usize = i / size;
    let x_in_row: usize = i % size;
    let x: usize = if y % 2 == 1 {
        size - 1 - x_in_row
    } else {
        x_in_row
    };
    (x, y)
}

/// Scan number of a position.
pub fn scan_pos_inv(x: usize, y: usize, size: usize, _transpose: bool) -> (r: usize)
    requires
        y % 2 == 1 ==> x < size,
        traverse_inv(x as int, y as int, size as int) <= usize::MAX,
    ensures
        r == traverse_inv(x as int, y as int, size as int),
{
    let x_in_row: usize = if y % 2 == 1 {
        size - 1 - x
    } else {
        x
    };
    proof {
        assert(0 <= y * size) by (nonlinear_arith);
    }
    y * size + x_in_row
}

/// The scan visits each position of a block once: position and scan number determine each other.
pub proof fn scan_is_invertible(i: int, x: int, y: int, size: int)
    requires
        size > 0,
        0 <= i,
        0 <= x < size,
        0 <= y,
    ensures
        ({
            let (px, py) = traverse(i, size);
            &&& 0 <= px < size
            &&& 0 <= py
            &&& i < size * size ==> py < size
            &&& traverse_inv(px, py, size) == i
        }),
        traverse(traverse_inv(x, y, size), size) == (x, y),
        0 <= traverse_inv(x, y, size),
        y < size ==> traverse_inv(x, y, size) < size * size,
{
    assert(i < (i + 1) * size) by (nonlinear_arith)
        requires
            0 <= i,
            size > 0,
    ;
    lemma_row_major_split(i, size, i + 1);
    let c = if y % 2 == 1 {
        size - 1 - x
    } else {
        x
    };
    lemma_row_major(y, c, size, y + 1);
    assert((y + 1) * size == y * size + size) by (nonlinear_arith);
    if y < size {
        assert((y + 1) * size <= size * size) by (nonlinear_arith)
            requires
                y + 1 <= size,
                size > 0,
        ;
    }
    if i < size * size {
        assert(i / size < size) by (nonlinear_arith)
            requires
                0 <= i < size * size,
                size > 0,
        ;
    }
}

/// What the reuse flags of a palette predictor come to.
pub struct Reuse<B> {
    pub flags: Seq<bool>,
    pub count: int,
    pub bits: B,
}

/// Reuse flags read from entry `idx` on. A run of 1 ends them; any other run skips one entry less
/// than its value, or none, and marks the next.
pub open spec fn reuse_from<B: PaletteBits>(
    bits: B,
    flags: Seq<bool>,
    count: int,
    idx: int,
    max_size: int,
) -> Reuse<B>
    decreases flags.len() - idx,
{
    if 0 <= idx < flags.len() && count < max_size {
        let (run, b) = exp_golomb(bits, 0);
        if run == 1 {
            Reuse { flags, count, bits: b }
        } else {
            let at = if run > 1 {
                idx + run - 1
            } else {
                idx
            };
            if at >= idx && at < flags.len() {
                reuse_from(b, flags.update(at, true), count + 1, at + 1, max_size)
            } else {
                Reuse { flags, count, bits: b }
            }
        }
    } else {
        Reuse { flags, count, bits }
    }
}

/// Reads which entries of the predictor a palette takes over, and how many they are.
pub fn decode_reuse_flags<B: PaletteBits>(
    bits: &mut B,
    predictor_size: usize,
    palette_max_size: usize,
) -> (r: (Vec<bool>, usize))
    ensures
        ({
            let none = Seq::new(predictor_size as nat, |i: int| false);
            let out = reuse_from(*old(bits), none, 0, 0, palette_max_size as int);
            &&& r.0@ == out.flags
            &&& r.1 == out.count
            &&& *final(bits) == out.bits
        }),
{
    let mut reused: Vec<bool> = Vec::new();
    let mut i: usize = 0;
    while i < predictor_size
        invariant
            i <= predictor_size,
            reused@ == Seq::new(i as nat, |k: int| false),
        decreases predictor_size - i,
    {
        reused.push(false);
        i = i + 1;
        assert(reused@ =~= Seq::new(i as nat, |k: int| false));
    }
    let ghost whole = reuse_from(*old(bits), reused@, 0, 0, palette_max_size as int);
    let mut num_reused: usize = 0;
    let mut idx: usize = 0;
    while idx < predictor_size && num_reused < palette_max_size
        invariant_except_break
            num_reused <= idx <= predictor_size,
            reused@.len() == predictor_size,
            whole == reuse_from(
                *bits,
                reused@,
                num_reused as int,
                idx as int,
                palette_max_size as int,
            ),
        ensures
            whole.flags == reused@,
            whole.count == num_reused,
            whole.bits == *bits,
        decreases predictor_size - idx,
    {
        let run: u32 = read_eg0(bits);
        if run == 1 {
            break;
        }
        let step: u32 = if run > 1 {
            run - 1
        } else {
            0
        };
        if step as usize >= predictor_size - idx {
            idx = predictor_size;
            break;
        }
        idx = idx + step as usize;
        reused.set(idx, true);
        num_reused = num_reused + 1;
        idx = idx + 1;
    }
    (reused, num_reused)
}

/// The palette predictor: candidate entries, one column for each component.
#[derive(Clone, Debug)]
pub struct PalettePredictor {
    pub entries: [Vec<u16>; 3],
    pub num_comps: usize,
}

/// Entries of a column that are not reused, among the first `k`.
pub open spec fn kept(column: Seq<u16>, reused: Seq<bool>, k: int) -> Seq<u16>
    decreases k,
{
    if k <= 0 {
        Seq::empty()
    } else if k - 1 < reused.len() && reused[k - 1] {
        kept(column, reused, k - 1)
    } else {
        kept(column, reused, k - 1).push(column[k - 1])
    }
}

/// One component of a palette.
pub open spec fn component(palette: Seq<[u16; 3]>, c: int) -> Seq<u16> {
    Seq::new(palette.len(), |i: int| palette[i]@[c])
}

/// The first `n` elements, or all if there are fewer.
pub open spec fn at_most<T>(s: Seq<T>, n: int) -> Seq<T> {
    if s.len() <= n {
        s
    } else {
        s.take(n)
    }
}

impl PalettePredictor {
    /// Number of components in use.
    pub open spec fn comps(self) -> int {
        if self.num_comps < 1 {
            1
        } else {
            self.num_comps as int
        }
    }

    /// At most three components are in use, and every column in use has an entry where the first
    /// has.
    pub open spec fn wf(self) -> bool {
        &&& self.comps() <= 3
        &&& forall|c: int|
            0 <= c < self.comps() ==> (#[trigger] self.entries@[c])@.len()
                >= self.entries@[0]@.len()
    }

    /// Number of entries.
    pub fn size(&self) -> (r: usize)
        ensures
            r == self.entries@[0]@.len(),
    {
        self.entries[0].len()
    }

    /// Replaces the predictor by the given columns; missing columns are empty.
    pub fn reset_from(&mut self, init: &[Vec<u16>], num_comps: usize)
        ensures
            final(self).num_comps == num_comps,
            forall|c: int|
                0 <= c < 3 ==> (#[trigger] final(self).entries@[c])@ == if c < init@.len() {
                    init@[c]@
                } else {
                    Seq::empty()
                },
    {
        self.num_comps = num_comps;
        let c0: Vec<u16> = column_of(init, 0);
        let c1: Vec<u16> = column_of(init, 1);
        let c2: Vec<u16> = column_of(init, 2);
        self.entries = [c0, c1, c2];
    }

    /// The column after an update: the palette of the coding block, then the entries that were not
    /// reused, cut at the size of the predictor.
    pub open spec fn updated_column(
        self,
        palette: Seq<[u16; 3]>,
        reused: Seq<bool>,
        max_size: int,
        c: int,
    ) -> Seq<u16> {
        if c < self.comps() {
            at_most(
                component(palette, c) + kept(
                    self.entries@[c]@,
                    reused,
                    self.entries@[0]@.len() as int,
                ),
                max_size,
            )
        } else {
            Seq::empty()
        }
    }

    /// Updates the predictor after a coding block.
    pub fn update(&mut self, cu_palette: &[[u16; 3]], reused: &[bool], max_pred_size: usize)
        requires
            old(self).wf(),
        ensures
            final(self).wf(),
            final(self).num_comps == old(self).num_comps,
            forall|c: int|
                0 <= c < 3 ==> (#[trigger] final(self).entries@[c])@ == old(self).updated_column(
                    cu_palette@,
                    reused@,
                    max_pred_size as int,
                    c,
                ),
    {
        let comps: usize = if self.num_comps < 1 {
            1
        } else {
            self.num_comps
        };
        let prev_len: usize = self.entries[0].len();
        let c0: Vec<u16> = updated_column_of(
            &self.entries[0],
            prev_len,
            cu_palette,
            0,
            reused,
            max_pred_size,
        );
        let mut c1: Vec<u16> = Vec::new();
        if comps > 1 {
            assert(self.entries@[1]@.len() >= self.entries@[0]@.len());
            c1 =
            updated_column_of(&self.entries[1], prev_len, cu_palette, 1, reused, max_pred_size);
        }
        let mut c2: Vec<u16> = Vec::new();
        if comps > 2 {
            assert(self.entries@[2]@.len() >= self.entries@[0]@.len());
            c2 =
            updated_column_of(&self.entries[2], prev_len, cu_palette, 2, reused, max_pred_size);
        }
        proof {
            if comps > 1 {
                lemma_kept_len(self.entries@[0]@, self.entries@[1]@, reused@, prev_len as int);
            }
            if comps > 2 {
                lemma_kept_len(self.entries@[0]@, self.entries@[2]@, reused@, prev_len as int);
            }
        }
        self.entries = [c0, c1, c2];
        assert(self.entries@[0]@ == c0@);
        assert(self.entries@[1]@ == c1@);
        assert(self.entries@[2]@ == c2@);
    }
}

impl Default for PalettePredictor {
    fn default() -> (r: Self)
        ensures
            r.num_comps == 0,
            forall|c: int| 0 <= c < 3 ==> (#[trigger] r.entries@[c])@ == Seq::<u16>::empty(),
    {
        PalettePredictor { entries: [Vec::new(), Vec::new(), Vec::new()], num_comps: 0 }
    }
}

fn column_of(init: &[Vec<u16>], c: usize) -> (r: Vec<u16>)
    ensures
        r@ == if c < init@.len() {
            init@[c as int]@
        } else {
            Seq::empty()
        },
{
    if c < init.len() {
        let v: Vec<u16> = init[c].clone();
        assert(v@ =~= init@[c as int]@);
        v
    } else {
        Vec::new()
    }
}

proof fn lemma_kept_len(a: Seq<u16>, b: Seq<u16>, reused: Seq<bool>, k: int)
    ensures
        kept(a, reused, k).len() == kept(b, reused, k).len(),
    decreases k,
{
    if k > 0 {
        lemma_kept_len(a, b, reused, k - 1);
    }
}

/// What is kept of the first entries is the beginning of what is kept of more.
proof fn lemma_kept_prefix(column: Seq<u16>, reused: Seq<bool>, k: int, n: int)
    requires
        0 <= k <= n,
    ensures
        kept(column, reused, k).len() <= kept(column, reused, n).len(),
        kept(column, reused, n).take(kept(column, reused, k).len() as int) == kept(
            column,
            reused,
            k,
        ),
    decreases n - k,
{
    if k < n {
        lemma_kept_prefix(column, reused, k, n - 1);
        let a = kept(column, reused, k);
        let b = kept(column, reused, n - 1);
        let c = kept(column, reused, n);
        assert(c.take(a.len() as int) =~= b.take(a.len() as int));
    } else {
        let a = kept(column, reused, k);
        assert(a.take(a.len() as int) =~= a);
    }
}

fn updated_column_of(
    column: &Vec<u16>,
    prev_len: usize,
    cu_palette: &[[u16; 3]],
    c: usize,
    reused: &[bool],
    max_pred_size: usize,
) -> (r: Vec<u16>)
    requires
        c < 3,
        prev_len <= column@.len(),
    ensures
        r@ == at_most(
            component(cu_palette@, c as int) + kept(column@, reused@, prev_len as int),
            max_pred_size as int,
        ),
{
    let mut out: Vec<u16> = Vec::new();
    let ghost comp = component(cu_palette@, c as int);
    let ghost total = comp + kept(column@, reused@, prev_len as int);
    let mut i: usize = 0;
    while i < cu_palette.len() && out.len() < max_pred_size
        invariant
            c < 3,
            comp == component(cu_palette@, c as int),
            i <= cu_palette@.len(),
            i <= max_pred_size,
            out@ == comp.take(i as int),
        decreases cu_palette@.len() - i,
    {
        let v: u16 = cu_palette[i][c];
        out.push(v);
        i = i + 1;
        assert(out@ =~= comp.take(i as int));
    }
    if i < cu_palette.len() {
        assert(out@ =~= total.take(max_pred_size as int));
        return out;
    }
    assert(out@ =~= comp);
    let mut k: usize = 0;
    while k < prev_len && out.len() < max_pred_size
        invariant
            k <= prev_len <= column@.len(),
            comp.len() <= max_pred_size,
            out@ == comp + kept(column@, reused@, k as int),
            out@.len() <= max_pred_size,
        decreases prev_len - k,
    {
        let skip: bool = k < reused.len() && reused[k];
        if !skip {
            let v: u16 = column[k];
            out.push(v);
            assert(out@ =~= comp + kept(column@, reused@, k as int + 1));
        }
        k = k + 1;
    }
    proof {
        lemma_kept_prefix(column@, reused@, k as int, prev_len as int);
        let part = kept(column@, reused@, k as int);
        let all = kept(column@, reused@, prev_len as int);
        if k < prev_len {
            assert forall|j: int| 0 <= j < max_pred_size implies out@[j] == total[j] by {
                if j >= comp.len() {
                    assert(part[j - comp.len()] == all.take(part.len() as int)[j - comp.len()]);
                }
            }
            assert(out@ =~= total.take(max_pred_size as int));
            if total.len() <= max_pred_size {
                assert(out@ =~= total);
            }
        }
    }
    out
}

/// The coded palette indices, and the type of the final run.
#[derive(Clone, Debug)]
pub struct PaletteIndexData {
    pub idc: Vec<u32>,
    pub final_run_copy_above: bool,
}

/// Coded indices read on until there are `count`. The first has one symbol more than the others.
pub open spec fn index_values<B: PaletteBits>(
    bits: B,
    out: Seq<u32>,
    count: int,
    max_index: int,
) -> (Seq<u32>, B)
    decreases count - out.len(),
{
    if out.len() >= count {
        (out, bits)
    } else {
        let (v, b) = truncated_binary(
            bits,
            if out.len() == 0 {
                max_index + 1
            } else {
                max_index
            },
        );
        index_values(b, out.push(v as u32), count, max_index)
    }
}

/// How many indices are coded for a block of `n` samples.
pub open spec fn coded_count<B: PaletteBits>(bits: B, n: int, max_index: int) -> int {
    min_int(index_count(bits, index_count_rice(max_index), 0).0 + 1, n)
}

/// Reads the number of coded indices, the indices, and the type of the final run.
pub fn decode_index_values<B: PaletteBits>(bits: &mut B, n: usize, max_palette_index: u32) -> (r:
    PaletteIndexData)
    requires
        index_count_fits(*old(bits), max_palette_index as int, 0),
    ensures
        ({
            let max_index = max_palette_index as int;
            let count = coded_count(*old(bits), n as int, max_index);
            let b0 = index_count(*old(bits), index_count_rice(max_index), 0).1;
            let (vals, b) = index_values(b0, Seq::empty(), count, max_index);
            &&& r.idc@ == vals
            &&& r.final_run_copy_above == (b.answer(Bin::RunType) == COPY_ABOVE_MODE)
            &&& *final(bits) == b.after(Bin::RunType)
        }),
        r.idc@.len() <= n,
        codes_in_range(r.idc@, max_palette_index as int),
{
    let minus1: u32 = read_num_palette_indices(bits, max_palette_index);
    let num_indices: usize = if (minus1 as usize) < n {
        minus1 as usize + 1
    } else {
        n
    };
    let mut idc: Vec<u32> = Vec::new();
    let ghost whole = index_values(
        *bits,
        Seq::empty(),
        num_indices as int,
        max_palette_index as int,
    );
    assert(idc@ =~= Seq::<u32>::empty());
    let mut i: usize = 0;
    while i < num_indices
        invariant
            max_palette_index <= 230,
            i <= num_indices,
            idc@.len() == i,
            codes_in_range(idc@, max_palette_index as int),
            whole == index_values(*bits, idc@, num_indices as int, max_palette_index as int),
        decreases num_indices - i,
    {
        let alphabet: u32 = if i == 0 {
            max_palette_index + 1
        } else {
            max_palette_index
        };
        let v: u32 = read_truncated_binary(bits, alphabet);
        idc.push(v);
        i = i + 1;
    }
    let flag: u8 = bits.run_type_flag();
    PaletteIndexData { idc, final_run_copy_above: flag == COPY_ABOVE_MODE }
}

/// The first code stands for any index, every other for any index but one.
pub open spec fn codes_in_range(idc: Seq<u32>, max_index: int) -> bool {
    forall|i: int|
        0 <= i < idc.len() ==> (#[trigger] idc[i]) == 0 || idc[i] < if i == 0 {
            max_index + 1
        } else {
            max_index
        }
}

/// Index above the next sample of a partly known index map; 0 in the first row.
pub open spec fn index_above(out: Seq<u32>, size: int) -> u32 {
    let (x, y) = traverse(out.len() as int, size);
    if y == 0 {
        0
    } else {
        out[traverse_inv(x, y - 1, size)]
    }
}

/// An index map continued by copying from above.
pub open spec fn extend_above(out: Seq<u32>, size: int, count: int) -> Seq<u32>
    decreases count,
{
    if count <= 0 {
        out
    } else {
        extend_above(out.push(index_above(out, size)), size, count - 1)
    }
}

/// An index map continued by a repeated index.
pub open spec fn extend_by(out: Seq<u32>, v: u32, count: int) -> Seq<u32> {
    out + Seq::new(count as nat, |i: int| v)
}

/// How far an index map has been read.
pub struct IndexRuns<B> {
    pub bits: B,
    /// The indices so far, in scan order.
    pub out: Seq<u32>,
    /// Coded indices used up.
    pub used: int,
    /// The last run was copied from above.
    pub after_above: bool,
}

impl<B: PaletteBits> IndexRuns<B> {
    /// Whether the next run copies from above, and the decoder after that was read. A run from
    /// above needs a row above and does not follow another one; the flag is read if both types
    /// remain possible.
    pub open spec fn run_type(self, size: int, n: int, codes: int) -> (bool, B) {
        let scan = self.out.len();
        if scan >= size && !self.after_above {
            if self.used < codes && scan + 1 < n {
                (
                    self.bits.answer(Bin::RunType) == COPY_ABOVE_MODE,
                    self.bits.after(Bin::RunType),
                )
            } else {
                (!(scan + 1 == n && self.used < codes), self.bits)
            }
        } else {
            (false, self.bits)
        }
    }

    /// The next coded index, 0 after the last.
    pub open spec fn code(self, idc: Seq<u32>) -> u32 {
        if 0 <= self.used < idc.len() {
            idc[self.used]
        } else {
            0
        }
    }

    /// The index of the next index run. It differs from the index that the run before would have
    /// continued with, so larger codes move up by one.
    pub open spec fn index(self, idc: Seq<u32>, size: int) -> u32 {
        let raw = self.code(idc);
        if self.out.len() == 0 {
            raw
        } else {
            let reference = if self.after_above {
                index_above(self.out, size)
            } else {
                self.out[self.out.len() - 1]
            };
            if raw >= reference {
                (raw + 1) as u32
            } else {
                raw
            }
        }
    }

    /// The map after one more run.
    pub open spec fn step(self, size: int, n: int, idc: Seq<u32>, final_above: bool) -> IndexRuns<
        B,
    > {
        let scan = self.out.len();
        let (above, b) = self.run_type(size, n, idc.len() as int);
        let used = if above {
            self.used
        } else {
            min_int(self.used + 1, idc.len() as int)
        };
        let left = idc.len() - used;
        let (run, b2) = if left == 0 && above == final_above {
            (n - scan - 1, b)
        } else {
            let reserved = left + if final_above {
                1int
            } else {
                0
            };
            run_length(
                b,
                max_int(n - (scan + 1 + reserved), 0),
                above,
                if above {
                    0
                } else {
                    self.code(idc) as int
                },
            )
        };
        let count = min_int(max_int(run, 0) + 1, n - scan);
        IndexRuns {
            bits: b2,
            out: if above {
                extend_above(self.out, size, count)
            } else {
                extend_by(self.out, self.index(idc, size), count)
            },
            used,
            after_above: above,
        }
    }
}

proof fn lemma_extend_above_len(out: Seq<u32>, size: int, count: int)
    requires
        count >= 0,
    ensures
        extend_above(out, size, count).len() == out.len() + count,
    decreases count,
{
    if count > 0 {
        lemma_extend_above_len(out.push(index_above(out, size)), size, count - 1);
    }
}

/// The index map of `n` samples, run by run.
pub open spec fn index_map<B: PaletteBits>(
    s: IndexRuns<B>,
    size: int,
    n: int,
    idc: Seq<u32>,
    final_above: bool,
) -> IndexRuns<B>
    decreases n - s.out.len(),
{
    if s.out.len() >= n {
        s
    } else {
        let t = s.step(size, n, idc, final_above);
        proof {
            lemma_step_grows(s, size, n, idc, final_above);
        }
        index_map(t, size, n, idc, final_above)
    }
}

pub proof fn lemma_step_grows<B: PaletteBits>(
    s: IndexRuns<B>,
    size: int,
    n: int,
    idc: Seq<u32>,
    final_above: bool,
)
    requires
        s.out.len() < n,
    ensures
        s.out.len() < s.step(size, n, idc, final_above).out.len() <= n,
{
    let scan = s.out.len();
    assert forall|count: int| count >= 0 implies (#[trigger] extend_above(s.out, size, count)).len()
        == scan + count by {
        lemma_extend_above_len(s.out, size, count);
    }
}

fn index_above_of(out: &Vec<u32>, size: usize) -> (r: u32)
    requires
        0 < size,
        out@.len() < size * size,
    ensures
        r == index_above(out@, size as int),
{
    let (x, y): (usize, usize) = scan_pos(out.len(), size, false);
    if y == 0 {
        return 0;
    }
    proof {
        scan_is_invertible(out@.len() as int, x as int, y as int, size as int);
        lemma_above_is_known(out@.len() as int, size as int);
    }
    out[scan_pos_inv(x, y - 1, size, false)]
}

/// The sample above comes earlier in the scan.
proof fn lemma_above_is_known(i: int, size: int)
    requires
        0 <= i,
        size > 0,
        traverse(i, size).1 > 0,
    ensures
        ({
            let (x, y) = traverse(i, size);
            0 <= traverse_inv(x, y - 1, size) < i
        }),
{
    let (x, y) = traverse(i, size);
    scan_is_invertible(i, 0, 0, size);
    assert((y - 1) * size + size == y * size) by (nonlinear_arith);
    assert((y - 1) * size >= 0) by (nonlinear_arith)
        requires
            y >= 1,
            size > 0,
    ;
}

/// Reads the runs of an index map.
pub fn assign_index_runs<B: PaletteBits>(
    bits: &mut B,
    size: usize,
    _max_palette_index: u32,
    data: &PaletteIndexData,
    _transpose: bool,
) -> (r: Vec<u32>)
    requires
        size * size <= 0x8000_0000,
        forall|i: int| 0 <= i < data.idc@.len() ==> data.idc@[i] < u32::MAX,
    ensures
        ({
            let start = IndexRuns {
                bits: *old(bits),
                out: Seq::empty(),
                used: 0,
                after_above: false,
            };
            let end = index_map(
                start,
                size as int,
                size * size,
                data.idc@,
                data.final_run_copy_above,
            );
            &&& r@ == end.out
            &&& *final(bits) == end.bits
        }),
        r@.len() == size * size,
{
    let n: usize = size * size;
    let mut out: Vec<u32> = Vec::new();
    let codes: usize = data.idc.len();
    let mut used: usize = 0;
    let mut after_above: bool = false;
    let ghost whole = index_map(
        IndexRuns { bits: *bits, out: Seq::<u32>::empty(), used: 0, after_above: false },
        size as int,
        n as int,
        data.idc@,
        data.final_run_copy_above,
    );
    assert(out@ =~= Seq::<u32>::empty());
    while out.len() < n
        invariant
            n == size * size,
            n <= 0x8000_0000,
            codes == data.idc@.len(),
            forall|i: int| 0 <= i < data.idc@.len() ==> data.idc@[i] < u32::MAX,
            used <= codes,
            out@.len() <= n,
            whole == index_map(
                IndexRuns { bits: *bits, out: out@, used: used as int, after_above },
                size as int,
                n as int,
                data.idc@,
                data.final_run_copy_above,
            ),
        decreases n - out@.len(),
    {
        let ghost state = IndexRuns { bits: *bits, out: out@, used: used as int, after_above };
        let scan: usize = out.len();
        proof {
            assert(size > 0) by (nonlinear_arith)
                requires
                    0 <= scan < size * size,
            ;
            lemma_step_grows(
                state,
                size as int,
                n as int,
                data.idc@,
                data.final_run_copy_above,
            );
        }
        let copy_above: bool = if scan >= size && !after_above {
            if used < codes && scan + 1 < n {
                bits.run_type_flag() == COPY_ABOVE_MODE
            } else {
                !(scan + 1 == n && used < codes)
            }
        } else {
            false
        };
        let mut raw_index: u32 = 0;
        let mut index_value: u32 = 0;
        if !copy_above {
            raw_index =
            if used < codes {
                data.idc[used]
            } else {
                0
            };
            if used < codes {
                used = used + 1;
            }
            index_value =
            if scan == 0 {
                raw_index
            } else {
                let reference: u32 = if after_above {
                    index_above_of(&out, size)
                } else {
                    out[scan - 1]
                };
                if raw_index >= reference {
                    raw_index + 1
                } else {
                    raw_index
                }
            };
        }
        assert(!copy_above ==> index_value == state.index(data.idc@, size as int));
        let left: usize = codes - used;
        let last_run: bool = left == 0 && copy_above == data.final_run_copy_above;
        let run: u32 = if last_run {
            (n - scan - 1) as u32
        } else {
            let room: usize = n - scan - 1;
            let tail: usize = if data.final_run_copy_above {
                1
            } else {
                0
            };
            let max_run: usize = if left >= room || tail >= room - left {
                0
            } else {
                room - left - tail
            };
            decode_run(bits, max_run as u32, copy_above, raw_index)
        };
        let count: usize = if (run as usize) < n - scan {
            run as usize + 1
        } else {
            n - scan
        };
        let ghost target = if copy_above {
            extend_above(out@, size as int, count as int)
        } else {
            extend_by(out@, index_value, count as int)
        };
        let ghost base = out@;
        let mut k: usize = 0;
        while k < count
            invariant
                0 < size,
                n == size * size,
                n <= 0x8000_0000,
                k <= count,
                base.len() == scan,
                scan + count <= n,
                out@.len() == scan + k,
                copy_above ==> target == extend_above(out@, size as int, count - k),
                !copy_above ==> out@ == extend_by(base, index_value, k as int),
            decreases count - k,
        {
            let v: u32 = if copy_above {
                index_above_of(&out, size)
            } else {
                index_value
            };
            out.push(v);
            k = k + 1;
            assert(!copy_above ==> out@ =~= extend_by(base, index_value, k as int));
        }
        assert(out@ == target);
        after_above = copy_above;
        assert(IndexRuns { bits: *bits, out: out@, used: used as int, after_above }
            == state.step(size as int, n as int, data.idc@, data.final_run_copy_above));
    }
    out
}

/// Every index of a map lies in the palette, counting the escape index, if the codes do.
pub proof fn indices_stay_in_the_palette<B: PaletteBits>(
    s: IndexRuns<B>,
    size: int,
    n: int,
    idc: Seq<u32>,
    final_above: bool,
    max_index: u32,
)
    requires
        size > 0,
        1 <= max_index < u32::MAX,
        codes_in_range(idc, max_index as int),
        0 <= s.used <= idc.len(),
        s.out.len() > 0 && idc.len() > 0 ==> s.used > 0,
        s.out.len() <= n,
        forall|i: int| 0 <= i < s.out.len() ==> s.out[i] <= max_index,
    ensures
        index_map(s, size, n, idc, final_above).out.len() == n,
        forall|i: int|
            0 <= i < n ==> (#[trigger] index_map(s, size, n, idc, final_above).out[i]) <= max_index,
    decreases n - s.out.len(),
{
    if s.out.len() < n {
        let t = s.step(size, n, idc, final_above);
        lemma_step_grows(s, size, n, idc, final_above);
        let (above, b) = s.run_type(size, n, idc.len() as int);
        if above {
            assert forall|count: int| count >= 0 implies bounded_by(
                #[trigger] extend_above(s.out, size, count),
                max_index,
            ) by {
                lemma_extend_above_bounded(s.out, size, count, max_index);
            }
        } else {
            assert(s.index(idc, size) <= max_index) by {
                if s.used < idc.len() {
                    assert(idc[s.used] == 0 || idc[s.used] < max_index || s.used == 0);
                }
            }
        }
        assert(bounded_by(t.out, max_index));
        indices_stay_in_the_palette(t, size, n, idc, final_above, max_index);
    }
}

pub open spec fn bounded_by(s: Seq<u32>, max_index: u32) -> bool {
    forall|i: int| 0 <= i < s.len() ==> s[i] <= max_index
}

proof fn lemma_extend_above_bounded(out: Seq<u32>, size: int, count: int, max_index: u32)
    requires
        size > 0,
        bounded_by(out, max_index),
    ensures
        bounded_by(extend_above(out, size, count), max_index),
    decreases count,
{
    if count > 0 {
        if traverse(out.len() as int, size).1 > 0 {
            lemma_above_is_known(out.len() as int, size);
        } else {
            scan_is_invertible(out.len() as int, 0, 0, size);
        }
        lemma_extend_above_bounded(out.push(index_above(out, size)), size, count - 1, max_index);
    }
}

/// Number of indices that a sample can have: the palette entries and the escape.
pub open spec fn map_symbols(palette_size: int, escape_present: bool) -> int {
    if escape_present {
        palette_size + 1
    } else {
        palette_size
    }
}

/// Reads a whole index map: the coded indices, then the runs. With a single possible index there is
/// nothing to read.
pub fn decode_index_map<B: PaletteBits>(
    bits: &mut B,
    size: usize,
    current_palette_size: usize,
    escape_present: bool,
    transpose: bool,
) -> (r: Vec<u32>)
    requires
        size * size <= usize::MAX,
        map_symbols(current_palette_size as int, escape_present) > 1 ==> {
            &&& index_count_fits(
                *old(bits),
                map_symbols(current_palette_size as int, escape_present) - 1,
                0,
            )
            &&& size * size <= 0x8000_0000
        },
    ensures
        ({
            let max_index = map_symbols(current_palette_size as int, escape_present) - 1;
            let n = (size * size) as int;
            if max_index <= 0 {
                &&& r@ == Seq::new(n as nat, |i: int| 0u32)
                &&& *final(bits) == *old(bits)
            } else {
                let count = coded_count(*old(bits), n, max_index);
                let b0 = index_count(*old(bits), index_count_rice(max_index), 0).1;
                let (idc, b1) = index_values(b0, Seq::empty(), count, max_index);
                let above = b1.answer(Bin::RunType) == COPY_ABOVE_MODE;
                let start = IndexRuns {
                    bits: b1.after(Bin::RunType),
                    out: Seq::empty(),
                    used: 0,
                    after_above: false,
                };
                let end = index_map(start, size as int, n, idc, above);
                &&& r@ == end.out
                &&& *final(bits) == end.bits
            }
        }),
{
    let n: usize = size * size;
    let symbols: usize = if escape_present {
        current_palette_size + 1
    } else {
        current_palette_size
    };
    if symbols <= 1 {
        let mut indices: Vec<u32> = Vec::new();
        let mut i: usize = 0;
        while i < n
            invariant
                i <= n,
                indices@ == Seq::new(i as nat, |k: int| 0u32),
            decreases n - i,
        {
            indices.push(0);
            i = i + 1;
            assert(indices@ =~= Seq::new(i as nat, |k: int| 0u32));
        }
        return indices;
    }
    let max_palette_index: u32 = (symbols - 1) as u32;
    let data: PaletteIndexData = decode_index_values(bits, n, max_palette_index);
    assign_index_runs(bits, size, max_palette_index, &data, transpose)
}

/// A decoded palette coding block.
#[derive(Clone, Debug)]
pub struct PaletteCu {
    pub palette: Vec<[u16; 3]>,
    pub transpose: bool,
    /// Index of each sample in scan order.
    pub indices: Vec<u32>,
    /// Values of the escape samples, by scan number.
    pub escapes: Vec<[u16; 3]>,
    /// The index that marks an escape sample.
    pub escape_index: u32,
}

impl PaletteCu {
    /// Value of a component at a luma position of the index map.
    pub open spec fn mapped(self, size: int, c: int, x: int, y: int) -> u16 {
        let scan = traverse_inv(x, y, size);
        let idx = if scan < self.indices@.len() {
            self.indices@[scan]
        } else {
            0
        };
        if idx == self.escape_index {
            if scan < self.escapes@.len() {
                self.escapes@[scan]@[c]
            } else {
                0
            }
        } else if idx < self.palette@.len() {
            self.palette@[idx as int]@[c]
        } else {
            0
        }
    }

    /// Value of a sample of a component; a transposed map is read with its axes exchanged.
    pub open spec fn sample(self, size: int, c: int, sub: (usize, usize), x: int, y: int) -> u16 {
        if self.transpose {
            self.mapped(size, c, y * sub.1, x * sub.0)
        } else {
            self.mapped(size, c, x * sub.0, y * sub.1)
        }
    }
}

/// Where a component goes: the pitch and the size of its plane, the corner of the block, and how
/// many luma samples there are per sample in each direction.
#[derive(Clone, Copy, Debug)]
pub struct Target {
    pub stride: usize,
    pub dims: (usize, usize),
    pub origin: (usize, usize),
    pub sub: (usize, usize),
}

impl Target {
    /// The positions of the block are representable, and what of it lies in the picture lies in a
    /// buffer of `len` samples.
    pub open spec fn fits(self, size: int, len: int) -> bool {
        &&& 0 < self.sub.0
        &&& 0 < self.sub.1
        &&& 0 < size / self.sub.0 as int && 0 < size / self.sub.1 as int ==> {
            &&& self.origin.0 + size / self.sub.0 as int - 1 <= usize::MAX
            &&& self.origin.1 + size / self.sub.1 as int - 1 <= usize::MAX
        }
        &&& forall|px: int, py: int|
            #[trigger] self.covers(size, px, py) ==> py * self.stride + px < len
    }

    /// `(px, py)` belongs to the block and to the picture.
    pub open spec fn covers(self, size: int, px: int, py: int) -> bool {
        &&& self.origin.0 <= px < self.origin.0 + size / self.sub.0 as int
        &&& self.origin.1 <= py < self.origin.1 + size / self.sub.1 as int
        &&& px < self.dims.0
        &&& py < self.dims.1
    }

    /// The last of the first `k` rows of the block that has a sample at index `i` of the buffer.
    pub open spec fn last_row(self, size: int, i: int, k: int) -> Option<int>
        decreases k,
    {
        let py = self.origin.1 + k - 1;
        if k <= 0 {
            None
        } else if self.covers(size, i - py * self.stride, py) {
            Some(k - 1)
        } else {
            self.last_row(size, i, k - 1)
        }
    }

    /// What the buffer holds at index `i` after the first `k` rows of component `c` of the block.
    pub open spec fn after_rows(
        self,
        cu: PaletteCu,
        size: int,
        c: int,
        before: Seq<u16>,
        i: int,
        k: int,
    ) -> u16 {
        match self.last_row(size, i, k) {
            Some(y) => cu.sample(
                size,
                c,
                self.sub,
                i - (self.origin.1 + y) * self.stride - self.origin.0,
                y,
            ),
            None => before[i],
        }
    }

    /// `after` is the buffer `before` with component `c` of the block written to it, row by row.
    pub open spec fn written(
        self,
        cu: PaletteCu,
        size: int,
        c: int,
        before: Seq<u16>,
        after: Seq<u16>,
    ) -> bool {
        &&& after.len() == before.len()
        &&& forall|i: int|
            0 <= i < before.len() ==> (#[trigger] after[i]) == self.after_rows(
                cu,
                size,
                c,
                before,
                i,
                size / self.sub.1 as int,
            )
    }
}

fn mapped_sample(cu: &PaletteCu, size: usize, c: usize, x: usize, y: usize) -> (r: u16)
    requires
        c < 3,
        x < size,
        y < size,
        size * size <= usize::MAX,
    ensures
        r == cu.mapped(size as int, c as int, x as int, y as int),
{
    proof {
        scan_is_invertible(0, x as int, y as int, size as int);
    }
    let scan: usize = scan_pos_inv(x, y, size, false);
    let idx: u32 = if scan < cu.indices.len() {
        cu.indices[scan]
    } else {
        0
    };
    if idx == cu.escape_index {
        if scan < cu.escapes.len() {
            cu.escapes[scan][c]
        } else {
            0
        }
    } else if (idx as usize) < cu.palette.len() {
        cu.palette[idx as usize][c]
    } else {
        0
    }
}

/// Scaled coordinates stay inside the block.
proof fn lemma_scaled_inside(x: int, s: int, size: int)
    requires
        0 < s,
        0 <= x < size / s,
    ensures
        0 <= x * s < size,
{
    assert(0 <= x * s < size) by (nonlinear_arith)
        requires
            0 < s,
            0 <= x < size / s,
    ;
}

/// Writes one component of a block to its plane.
pub fn reconstruct_component(
    cu: &PaletteCu,
    size: usize,
    c: usize,
    plane: &mut [u16],
    target: Target,
)
    requires
        c < 3,
        size * size <= usize::MAX,
        target.fits(size as int, old(plane)@.len() as int),
    ensures
        target.written(*cu, size as int, c as int, old(plane)@, final(plane)@),
{
    let out_w: usize = size / target.sub.0;
    let out_h: usize = size / target.sub.1;
    let (ox, oy): (usize, usize) = target.origin;
    let (pw, ph): (usize, usize) = target.dims;
    let stride: usize = target.stride;
    let ghost before = plane@;
    let plane_len: usize = plane.len();
    let mut y: usize = 0;
    while y < out_h
        invariant
            c < 3,
            size * size <= usize::MAX,
            plane_len == before.len(),
            target.fits(size as int, before.len() as int),
            out_w == size as int / target.sub.0 as int,
            out_h == size as int / target.sub.1 as int,
            (ox, oy) == target.origin,
            (pw, ph) == target.dims,
            stride == target.stride,
            y <= out_h,
            plane@.len() == before.len(),
            forall|i: int|
                0 <= i < before.len() ==> (#[trigger] plane@[i]) == target.after_rows(
                    *cu,
                    size as int,
                    c as int,
                    before,
                    i,
                    y as int,
                ),
        decreases out_h - y,
    {
        let ghost row_before = plane@;
        let mut x: usize = 0;
        while x < out_w
            invariant
                c < 3,
                size * size <= usize::MAX,
                plane_len == before.len(),
                target.fits(size as int, before.len() as int),
                out_w == size as int / target.sub.0 as int,
                out_h == size as int / target.sub.1 as int,
                (ox, oy) == target.origin,
                (pw, ph) == target.dims,
                stride == target.stride,
                y < out_h,
                x <= out_w,
                plane@.len() == before.len(),
                row_before.len() == before.len(),
                forall|i: int|
                    0 <= i < before.len() ==> (#[trigger] plane@[i]) == {
                        let px = i - (oy + y) * stride;
                        if target.covers(size as int, px, oy + y) && px < ox + x {
                            cu.sample(size as int, c as int, target.sub, px - ox, y as int)
                        } else {
                            row_before[i]
                        }
                    },
            decreases out_w - x,
        {
            proof {
                lemma_scaled_inside(x as int, target.sub.0 as int, size as int);
                lemma_scaled_inside(y as int, target.sub.1 as int, size as int);
            }
            let xs: usize = x * target.sub.0;
            let ys: usize = y * target.sub.1;
            let v: u16 = if cu.transpose {
                mapped_sample(cu, size, c, ys, xs)
            } else {
                mapped_sample(cu, size, c, xs, ys)
            };
            let px: usize = ox + x;
            let py: usize = oy + y;
            if px < pw && py < ph {
                proof {
                    assert(target.covers(size as int, px as int, py as int));
                    assert(0 <= py * stride) by (nonlinear_arith);
                }
                plane[py * stride + px] = v;
            }
            x = x + 1;
        }
        proof {
            assert forall|i: int| 0 <= i < before.len() implies (#[trigger] plane@[i])
                == target.after_rows(
                *cu,
                size as int,
                c as int,
                before,
                i,
                y + 1,
            ) by {
                assert(row_before[i] == row_before[i]);
            }
        }
        y = y + 1;
    }
}

/// Where component `c` goes.
pub open spec fn target_of(
    strides: [usize; 3],
    dims: [(usize, usize); 3],
    origins: [(usize, usize); 3],
    sub: [(usize, usize); 3],
    c: int,
) -> Target {
    Target { stride: strides@[c], dims: dims@[c], origin: origins@[c], sub: sub@[c] }
}

/// Writes a block to its planes, as many of them as there are components.
pub fn reconstruct(
    cu: &PaletteCu,
    size: usize,
    num_comps: usize,
    plane0: &mut [u16],
    plane1: &mut [u16],
    plane2: &mut [u16],
    strides: [usize; 3],
    dims: [(usize, usize); 3],
    origins: [(usize, usize); 3],
    sub: [(usize, usize); 3],
)
    requires
        num_comps <= 3,
        size * size <= usize::MAX,
        num_comps > 0 ==> target_of(strides, dims, origins, sub, 0).fits(
            size as int,
            old(plane0)@.len() as int,
        ),
        num_comps > 1 ==> target_of(strides, dims, origins, sub, 1).fits(
            size as int,
            old(plane1)@.len() as int,
        ),
        num_comps > 2 ==> target_of(strides, dims, origins, sub, 2).fits(
            size as int,
            old(plane2)@.len() as int,
        ),
    ensures
        if num_comps > 0 {
            target_of(strides, dims, origins, sub, 0).written(
                *cu,
                size as int,
                0,
                old(plane0)@,
                final(plane0)@,
            )
        } else {
            final(plane0)@ == old(plane0)@
        },
        if num_comps > 1 {
            target_of(strides, dims, origins, sub, 1).written(
                *cu,
                size as int,
                1,
                old(plane1)@,
                final(plane1)@,
            )
        } else {
            final(plane1)@ == old(plane1)@
        },
        if num_comps > 2 {
            target_of(strides, dims, origins, sub, 2).written(
                *cu,
                size as int,
                2,
                old(plane2)@,
                final(plane2)@,
            )
        } else {
            final(plane2)@ == old(plane2)@
        },
{
    if num_comps > 0 {
        let t: Target = Target {
            stride: strides[0],
            dims: dims[0],
            origin: origins[0],
            sub: sub[0],
        };
        reconstruct_component(cu, size, 0, plane0, t);
    }
    if num_comps > 1 {
        let t: Target = Target {
            stride: strides[1],
            dims: dims[1],
            origin: origins[1],
            sub: sub[1],
        };
        reconstruct_component(cu, size, 1, plane1, t);
    }
    if num_comps > 2 {
        let t: Target = Target {
            stride: strides[2],
            dims: dims[2],
            origin: origins[2],
            sub: sub[2],
        };
        reconstruct_component(cu, size, 2, plane2, t);
    }
}

/// In a picture whose rows do not overlap, each position that the block covers holds its sample.
pub proof fn covered_positions_hold_their_samples(
    target: Target,
    cu: PaletteCu,
    size: int,
    c: int,
    before: Seq<u16>,
    after: Seq<u16>,
    px: int,
    py: int,
)
    requires
        target.fits(size, before.len() as int),
        target.written(cu, size, c, before, after),
        target.dims.0 <= target.stride,
        target.covers(size, px, py),
    ensures
        0 <= py * target.stride + px < after.len(),
        after[py * target.stride + px] == cu.sample(
            size,
            c,
            target.sub,
            px - target.origin.0,
            py - target.origin.1,
        ),
{
    let i = py * target.stride + px;
    assert(0 <= py * target.stride) by (nonlinear_arith)
        requires
            0 <= py,
            0 <= target.stride,
    ;
    lemma_last_row(target, size, px, py, size / target.sub.1 as int);
    assert(after[i] == target.after_rows(cu, size, c, before, i, size / target.sub.1 as int));
}

proof fn lemma_last_row(target: Target, size: int, px: int, py: int, k: int)
    requires
        target.dims.0 <= target.stride,
        target.covers(size, px, py),
        py < target.origin.1 + k,
    ensures
        target.last_row(size, py * target.stride + px, k) == Some(py - target.origin.1),
    decreases k,
{
    let row = target.origin.1 + k - 1;
    let i = py * target.stride + px;
    if row > py {
        assert(i - row * target.stride < 0) by (nonlinear_arith)
            requires
                i == py * target.stride + px,
                px < target.stride,
                row >= py + 1,
        ;
        lemma_last_row(target, size, px, py, k - 1);
    }
}

/// An updated predictor starts with the palette of the coding block, as far as that fits, and never
/// exceeds its size.
pub proof fn updated_predictor_starts_with_the_palette(
    p: PalettePredictor,
    palette: Seq<[u16; 3]>,
    reused: Seq<bool>,
    max_size: int,
    c: int,
    i: int,
)
    requires
        0 <= c < p.comps(),
        0 <= i < palette.len(),
        i < max_size,
    ensures
        p.updated_column(palette, reused, max_size, c).len() <= max_size,
        i < p.updated_column(palette, reused, max_size, c).len(),
        p.updated_column(palette, reused, max_size, c)[i] == palette[i]@[c],
{
}

/// Transposing a block exchanges the axes of what is reconstructed, where both directions are
/// sampled alike.
pub proof fn transposed_block_exchanges_axes(
    cu: PaletteCu,
    other: PaletteCu,
    size: int,
    c: int,
    sub: (usize, usize),
    x: int,
    y: int,
)
    requires
        other == (PaletteCu { transpose: !cu.transpose, ..cu }),
        sub.0 == sub.1,
    ensures
        other.sample(size, c, sub, x, y) == cu.sample(size, c, sub, y, x),
{
}

/// The decoder after `i` bypass bins.
pub open spec fn bypassed<B: PaletteBits>(bits: B, i: int) -> B
    decreases i,
{
    if i <= 0 {
        bits
    } else {
        bypassed(bits, i - 1).after(Bin::Bypass)
    }
}

proof fn lemma_bypassed<B: PaletteBits>(bits: B, i: int)
    requires
        0 <= i,
    ensures
        bypassed(bits.after(Bin::Bypass), i) == bypassed(bits, i + 1),
    decreases i,
{
    if i > 0 {
        lemma_bypassed(bits, i - 1);
    } else {
        assert(bypassed(bits, 0) == bits);
        assert(bypassed(bits, 1) == bits.after(Bin::Bypass));
    }
}

/// The next `p` bypass bins are set and the one behind them is not.
pub open spec fn ones_then_zero<B: PaletteBits>(bits: B, p: int) -> bool {
    &&& forall|i: int| 0 <= i < p ==> (#[trigger] bypassed(bits, i)).answer(Bin::Bypass) != 0
    &&& bypassed(bits, p).answer(Bin::Bypass) == 0
}

proof fn lemma_unary<B: PaletteBits>(bits: B, start: int, p: int)
    requires
        0 <= start,
        0 <= p,
        start + p < 32,
        ones_then_zero(bits, p),
    ensures
        unary(bits, start) == (start + p, bypassed(bits, p + 1)),
    decreases p,
{
    assert(bypassed(bits, 0) == bits);
    if p > 0 {
        let b = bits.after(Bin::Bypass);
        assert forall|i: int| 0 <= i < p - 1 implies (#[trigger] bypassed(b, i)).answer(
            Bin::Bypass,
        ) != 0 by {
            lemma_bypassed(bits, i);
            assert(bypassed(bits, i + 1).answer(Bin::Bypass) != 0);
        }
        lemma_bypassed(bits, p - 1);
        lemma_bypassed(bits, p);
        lemma_unary(b, start + 1, p - 1);
        assert(bypassed(bits, 0).answer(Bin::Bypass) != 0);
    } else {
        assert(bypassed(bits, 1) == bits.after(Bin::Bypass));
    }
}

/// An Exp-Golomb code of order `k` is `p` ones, a zero and `p + k` bits. It stands for the value of
/// those bits, counted from `2^k` times one less than `2^p`, in 32 bits.
pub proof fn exp_golomb_codes_are_read<B: PaletteBits>(bits: B, k: int, p: int, suffix: int)
    requires
        0 <= k,
        0 <= p < 32,
        ones_then_zero(bits, p),
        p + k > 0 ==> suffix == bypassed(bits, p + 1).answer(Bin::BypassBits { n: p + k }),
        p + k == 0 ==> suffix == 0,
    ensures
        exp_golomb(bits, k).0 == ((p2(p) - 1) * p2(k) + suffix) % 0x1_0000_0000,
        exp_golomb(bits, k).1 == (if p + k > 0 {
            bypassed(bits, p + 1).after(Bin::BypassBits { n: p + k })
        } else {
            bypassed(bits, p + 1)
        }),
{
    lemma_unary(bits, 0, p);
    lemma_p2_values();
}

/// A truncated binary code of `c` values has `k` bits for the first `2^(k + 1) - c` of them and
/// `k + 1` bits for the others, which are counted on from twice the first long code.
pub proof fn truncated_binary_codes_are_read<B: PaletteBits>(bits: B, c: int, k: int, v: int)
    requires
        2 <= c,
        0 <= k,
        p2(k) <= c < 2 * p2(k),
        0 <= v < c,
    ensures
        v < 2 * p2(k) - c && bits.answer(Bin::BypassBits { n: k }) == v ==> truncated_binary(
            bits,
            c,
        ) == (v, bits.after(Bin::BypassBits { n: k })),
        v >= 2 * p2(k) - c && ({
            let code = v + (2 * p2(k) - c);
            let b = bits.after(Bin::BypassBits { n: k });
            &&& bits.answer(Bin::BypassBits { n: k }) == code / 2
            &&& b.answer(Bin::Bypass) == code % 2
        }) ==> truncated_binary(bits, c) == (
            v,
            bits.after(Bin::BypassBits { n: k }).after(Bin::Bypass),
        ),
{
    lemma_log2_floor(c);
    let f = log2_floor(c);
    if f < k {
        lemma_p2_mono(f + 1, k);
    } else if k < f {
        lemma_p2_mono(k + 1, f);
    }
    assert(f == k);
}

/// One value needs no code.
pub proof fn single_values_need_no_code<B: PaletteBits>(bits: B, c: int)
    requires
        c <= 1,
    ensures
        truncated_binary(bits, c) == (0int, bits),
{
}

/// The number of indices is coded with `rice` bits behind up to three ones and a zero, and as an
/// Exp-Golomb code of the next order behind four ones.
pub proof fn index_counts_are_read<B: PaletteBits>(bits: B, rice: int, p: int)
    requires
        0 <= rice,
        0 <= p <= 4,
        p < 4 ==> ones_then_zero(bits, p),
        p == 4 ==> forall|i: int|
            0 <= i < 4 ==> (#[trigger] bypassed(bits, i)).answer(Bin::Bypass) != 0,
    ensures
        p < 4 ==> {
            let b = bypassed(bits, p + 1);
            let v = p * p2(rice) + b.answer(Bin::BypassBits { n: rice });
            &&& index_count(bits, rice, 0).0 == v % 0x1_0000_0000
            &&& index_count(bits, rice, 0).1 == b.after(Bin::BypassBits { n: rice })
        },
        p == 4 ==> {
            let (e, b) = exp_golomb(bypassed(bits, 4), rice + 1);
            &&& index_count(bits, rice, 0).0 == (4 * p2(rice) + e) % 0x1_0000_0000
            &&& index_count(bits, rice, 0).1 == b
        },
{
    reveal_with_fuel(index_count, 6);
    reveal_with_fuel(bypassed, 6);
    assert(bypassed(bits, 0) == bits);
    let b1 = bypassed(bits, 1);
    let b2 = bypassed(bits, 2);
    let b3 = bypassed(bits, 3);
    let b4 = bypassed(bits, 4);
    assert(b1 == bits.after(Bin::Bypass));
    assert(b2 == b1.after(Bin::Bypass));
    assert(b3 == b2.after(Bin::Bypass));
    assert(b4 == b3.after(Bin::Bypass));
    assert(p >= 1 ==> bypassed(bits, 0).answer(Bin::Bypass) != 0);
    assert(p >= 2 ==> b1.answer(Bin::Bypass) != 0);
    assert(p >= 3 ==> b2.answer(Bin::Bypass) != 0);
    assert(p >= 4 ==> b3.answer(Bin::Bypass) != 0);
    assert(p == 0 || p == 1 || p == 2 || p == 3 || p == 4);
}

/// Three bits for up to seven indices, and one more for every eight.
pub proof fn index_count_bits_grow(max_index: int)
    requires
        0 <= max_index,
    ensures
        max_index < 7 ==> index_count_rice(max_index) == 3,
        index_count_rice(max_index + 8) == index_count_rice(max_index) + 1,
{
}

/// The bin that a run prefix asks for next: the first one of an index run goes by its index.
pub open spec fn prefix_bin(copy_above: bool, palette_index: int, i: int) -> Bin {
    if i > 0 || copy_above {
        Bin::RunPrefix { bin: i, copy_above }
    } else {
        Bin::RunPrefixIndex { index: palette_index }
    }
}

/// The decoder after `i` bins of a run prefix.
pub open spec fn prefix_read<B: PaletteBits>(
    bits: B,
    copy_above: bool,
    palette_index: int,
    i: int,
) -> B
    decreases i,
{
    if i <= 0 {
        bits
    } else {
        prefix_read(bits, copy_above, palette_index, i - 1).after(
            prefix_bin(copy_above, palette_index, i - 1),
        )
    }
}

/// A run prefix counts set bins up to the first clear one or the limit.
pub proof fn run_prefixes_count_ones<B: PaletteBits>(
    bits: B,
    limit: int,
    copy_above: bool,
    palette_index: int,
    p: int,
)
    requires
        0 <= p <= limit,
        forall|i: int|
            0 <= i < p ==> (#[trigger] prefix_read(bits, copy_above, palette_index, i)).answer(
                prefix_bin(copy_above, palette_index, i),
            ) != 0,
        p < limit ==> prefix_read(bits, copy_above, palette_index, p).answer(
            prefix_bin(copy_above, palette_index, p),
        ) == 0,
    ensures
        run_prefix(bits, limit, copy_above, palette_index, 0) == (
            p,
            prefix_read(bits, copy_above, palette_index, if p < limit {
                p + 1
            } else {
                p
            }),
        ),
{
    lemma_run_prefix(bits, limit, copy_above, palette_index, 0, p);
    assert(prefix_read(bits, copy_above, palette_index, 0) == bits);
}

proof fn lemma_run_prefix<B: PaletteBits>(
    bits: B,
    limit: int,
    copy_above: bool,
    palette_index: int,
    at: int,
    p: int,
)
    requires
        0 <= at <= p <= limit,
        forall|i: int|
            0 <= i < p ==> (#[trigger] prefix_read(bits, copy_above, palette_index, i)).answer(
                prefix_bin(copy_above, palette_index, i),
            ) != 0,
        p < limit ==> prefix_read(bits, copy_above, palette_index, p).answer(
            prefix_bin(copy_above, palette_index, p),
        ) == 0,
    ensures
        run_prefix(
            prefix_read(bits, copy_above, palette_index, at),
            limit,
            copy_above,
            palette_index,
            at,
        ) == (p, prefix_read(bits, copy_above, palette_index, if p < limit {
            p + 1
        } else {
            p
        })),
    decreases p - at,
{
    let b = prefix_read(bits, copy_above, palette_index, at);
    if at < p {
        lemma_run_prefix(bits, limit, copy_above, palette_index, at + 1, p);
        assert(b.answer(prefix_bin(copy_above, palette_index, at)) != 0);
    }
}

/// Runs 0 and 1 are their prefix. A longer prefix `p` stands for the runs from `2^(p - 1)` to the
/// next power of two or the longest possible run, told apart by a truncated binary code.
pub proof fn runs_are_coded_by_octave<B: PaletteBits>(
    bits: B,
    max_run: int,
    copy_above: bool,
    palette_index: int,
    octaves: int,
    last: int,
)
    requires
        1 <= max_run,
        0 <= octaves,
        p2(octaves) <= max_run < 2 * p2(octaves),
        ({
            let p = run_prefix(bits, octaves + 1, copy_above, palette_index, 0).0;
            &&& p >= 2 ==> last == min_int(2 * p2(p - 1) - 1, max_run)
        }),
    ensures
        ({
            let (p, b) = run_prefix(bits, octaves + 1, copy_above, palette_index, 0);
            let r = run_length(bits, max_run, copy_above, palette_index);
            &&& p < 2 ==> r == (p, b)
            &&& p >= 2 && p2(p - 1) <= max_run ==> r.0 == p2(p - 1) + truncated_binary(
                b,
                last - p2(p - 1) + 1,
            ).0 && r.1 == truncated_binary(b, last - p2(p - 1) + 1).1
        }),
        run_length(bits, 0, copy_above, palette_index) == (0int, bits),
{
    lemma_log2_floor(max_run);
    let f = log2_floor(max_run);
    if f < octaves {
        lemma_p2_mono(f + 1, octaves);
    } else if octaves < f {
        lemma_p2_mono(octaves + 1, f);
    }
    assert(f == octaves);
}

/// The scan runs to and fro: even rows from left to right, odd rows back.
pub proof fn scan_runs_to_and_fro(x: int, y: int, size: int)
    requires
        0 <= x < size,
        0 <= y,
    ensures
        traverse_inv(x, 2 * y, size) == 2 * y * size + x,
        traverse_inv(x, 2 * y + 1, size) == (2 * y + 1) * size + (size - 1 - x),
        traverse(2 * y * size + x, size) == (x, 2 * y),
        traverse((2 * y + 1) * size + (size - 1 - x), size) == (x, 2 * y + 1),
{
    lemma_row_major(2 * y, x, size, 2 * y + 1);
    lemma_row_major(2 * y + 1, size - 1 - x, size, 2 * y + 2);
}

/// Reading which entries are reused: 0 takes the next entry, 1 ends the list, and a greater number
/// skips one entry less than it says. An entry beyond the last ends the list too.
pub proof fn reuse_codes_step_through_the_entries<B: PaletteBits>(
    bits: B,
    flags: Seq<bool>,
    count: int,
    idx: int,
    max_size: int,
)
    requires
        0 <= idx < flags.len(),
        count < max_size,
        0 <= exp_golomb(bits, 0).0,
    ensures
        ({
            let (run, b) = exp_golomb(bits, 0);
            let r = reuse_from(bits, flags, count, idx, max_size);
            &&& run == 0 ==> r == reuse_from(
                b,
                flags.update(idx, true),
                count + 1,
                idx + 1,
                max_size,
            )
            &&& run == 1 ==> r == (Reuse { flags, count, bits: b })
            &&& run >= 2 && idx + run - 1 < flags.len() ==> r == reuse_from(
                b,
                flags.update(idx + run - 1, true),
                count + 1,
                idx + run,
                max_size,
            )
            &&& run >= 2 && idx + run - 1 >= flags.len() ==> r == (Reuse { flags, count, bits: b })
        }),
{
}

/// Nothing is read once all entries were passed or the palette is full.
pub proof fn reuse_ends<B: PaletteBits>(
    bits: B,
    flags: Seq<bool>,
    count: int,
    idx: int,
    max_size: int,
)
    requires
        idx >= flags.len() || count >= max_size,
    ensures
        reuse_from(bits, flags, count, idx, max_size) == (Reuse { flags, count, bits }),
{
}

/// How many of the first `i` entries were not reused.
pub open spec fn unused_before(reused: Seq<bool>, i: int) -> int
    decreases i,
{
    if i <= 0 {
        0
    } else {
        unused_before(reused, i - 1) + if i - 1 < reused.len() && reused[i - 1] {
            0int
        } else {
            1
        }
    }
}

proof fn lemma_kept(column: Seq<u16>, reused: Seq<bool>, k: int, i: int)
    requires
        0 <= i < k,
        !(i < reused.len() && reused[i]),
    ensures
        kept(column, reused, k).len() == unused_before(reused, k),
        0 <= unused_before(reused, i) < kept(column, reused, k).len(),
        kept(column, reused, k)[unused_before(reused, i)] == column[i],
    decreases k,
{
    lemma_kept_count(column, reused, i);
    lemma_kept_count(column, reused, k - 1);
    lemma_kept_count(column, reused, k);
    if i < k - 1 {
        lemma_kept(column, reused, k - 1, i);
    }
}

proof fn lemma_kept_count(column: Seq<u16>, reused: Seq<bool>, k: int)
    ensures
        kept(column, reused, k).len() == unused_before(reused, k),
    decreases k,
{
    if k > 0 {
        lemma_kept_count(column, reused, k - 1);
    }
}

/// Behind the palette, an updated predictor holds the entries that were not reused, in their order,
/// as far as there is room.
pub proof fn unused_entries_follow_the_palette(
    p: PalettePredictor,
    palette: Seq<[u16; 3]>,
    reused: Seq<bool>,
    max_size: int,
    c: int,
    i: int,
)
    requires
        0 <= c < p.comps(),
        0 <= i < p.entries@[0]@.len(),
        !(i < reused.len() && reused[i]),
        palette.len() + unused_before(reused, i) < max_size,
    ensures
        ({
            let s = p.updated_column(palette, reused, max_size, c);
            let at = palette.len() + unused_before(reused, i);
            &&& at < s.len()
            &&& s[at] == p.entries@[c]@[i]
        }),
        palette.len() + unused_before(reused, p.entries@[0]@.len() as int) <= max_size
            ==> p.updated_column(palette, reused, max_size, c).len() == palette.len()
            + unused_before(reused, p.entries@[0]@.len() as int),
{
    let n = p.entries@[0]@.len() as int;
    lemma_kept(p.entries@[c]@, reused, n, i);
    let all = component(palette, c) + kept(p.entries@[c]@, reused, n);
    let at = palette.len() + unused_before(reused, i);
    assert(all[at] == p.entries@[c]@[i]);
}

/// The first coded index has one more value than the others: nothing comes before it that it must
/// differ from.
pub proof fn index_codes_are_read_in_turn<B: PaletteBits>(
    bits: B,
    out: Seq<u32>,
    count: int,
    max_index: int,
)
    ensures
        out.len() >= count ==> index_values(bits, out, count, max_index) == (out, bits),
        0 == out.len() < count ==> index_values(bits, out, count, max_index) == index_values(
            truncated_binary(bits, max_index + 1).1,
            seq![truncated_binary(bits, max_index + 1).0 as u32],
            count,
            max_index,
        ),
        0 < out.len() < count ==> index_values(bits, out, count, max_index) == index_values(
            truncated_binary(bits, max_index).1,
            out.push(truncated_binary(bits, max_index).0 as u32),
            count,
            max_index,
        ),
{
    if out.len() == 0 {
        let v = truncated_binary(bits, max_index + 1).0 as u32;
        assert(out.push(v) =~= seq![v]);
    }
}

/// There is always a coded index, and never more than samples.
pub proof fn coded_counts_are_limited<B: PaletteBits>(bits: B, n: int, max_index: int)
    ensures
        ({
            let more = index_count(bits, index_count_rice(max_index), 0).0;
            &&& more + 1 <= n ==> coded_count(bits, n, max_index) == more + 1
            &&& more + 1 > n ==> coded_count(bits, n, max_index) == n
        }),
{
}

/// A run that copies from above gives each of its samples the index of the sample above it, and
/// keeps what was there.
pub proof fn copied_runs_repeat_the_row_above(out: Seq<u32>, size: int, count: int, j: int)
    requires
        0 < size,
        0 <= count,
        0 <= j < out.len() + count,
    ensures
        extend_above(out, size, count).len() == out.len() + count,
        j < out.len() ==> extend_above(out, size, count)[j] == out[j],
        j >= out.len() && j < size ==> extend_above(out, size, count)[j] == 0,
        j >= out.len() && j >= size ==> ({
            let (x, y) = traverse(j, size);
            extend_above(out, size, count)[j] == extend_above(out, size, count)[traverse_inv(
                x,
                y - 1,
                size,
            )]
        }),
    decreases count,
{
    if count > 0 {
        let next = out.push(index_above(out, size));
        copied_runs_repeat_the_row_above(next, size, count - 1, j);
        if j == out.len() {
            let (x, y) = traverse(j, size);
            if j < size {
                assert(j / size == 0) by (nonlinear_arith)
                    requires
                        0 <= j < size,
                ;
            } else {
                assert(j / size >= 1) by (nonlinear_arith)
                    requires
                        j >= size,
                        size > 0,
                ;
                lemma_above_is_known(j, size);
                copied_runs_repeat_the_row_above(
                    next,
                    size,
                    count - 1,
                    traverse_inv(x, y - 1, size),
                );
            }
        }
    }
}

/// The index of a new run differs from the one it would have had otherwise: that of the sample
/// above behind a copied run, else that of the sample before. The coded value leaves that index
/// out.
pub proof fn new_indices_differ_from_the_expected<B: PaletteBits>(
    s: IndexRuns<B>,
    idc: Seq<u32>,
    size: int,
    code: u32,
    expected: u32,
)
    requires
        0 < s.out.len(),
        code == (if s.used < idc.len() {
            idc[s.used]
        } else {
            0
        }),
        0 <= s.used,
        code < u32::MAX,
        s.after_above ==> expected == index_above(s.out, size),
        !s.after_above ==> expected == s.out.last(),
    ensures
        s.index(idc, size) != expected,
        s.index(idc, size) < expected ==> s.index(idc, size) == code,
        s.index(idc, size) > expected ==> s.index(idc, size) == code + 1,
{
}

/// The index above is that of the sample one row up in the same column.
pub proof fn index_above_is_one_row_up(out: Seq<u32>, size: int, x: int, y: int)
    requires
        0 <= x < size,
        0 <= y,
        traverse_inv(x, y, size) == out.len(),
    ensures
        y == 0 ==> index_above(out, size) == 0,
        y > 0 ==> index_above(out, size) == out[traverse_inv(x, y - 1, size)],
{
    scan_is_invertible(0, x, y, size);
}

/// Copying from above is possible below the first row and not twice in a row. Where it is, its flag
/// is read, unless no coded index is left, which means copying, or only the last sample is, which
/// does not.
pub proof fn run_types_are_read_where_open<B: PaletteBits>(
    s: IndexRuns<B>,
    size: int,
    n: int,
    codes: int,
)
    ensures
        s.out.len() < size || s.after_above ==> s.run_type(size, n, codes) == (false, s.bits),
        s.out.len() >= size && !s.after_above ==> {
            &&& s.used >= codes ==> s.run_type(size, n, codes) == (true, s.bits)
            &&& s.used < codes && s.out.len() + 1 == n ==> s.run_type(size, n, codes) == (
                false,
                s.bits,
            )
            &&& s.used < codes && s.out.len() + 1 < n ==> s.run_type(size, n, codes) == (
                s.bits.answer(Bin::RunType) == 1,
                s.bits.after(Bin::RunType),
            )
        },
{
}

/// A run of either type is as long as its code says, or reaches to the end if it is the last one.
/// An index run uses one coded index and repeats it; a copying run uses none.
pub proof fn runs_follow_their_code<B: PaletteBits>(
    s: IndexRuns<B>,
    size: int,
    n: int,
    idc: Seq<u32>,
    final_above: bool,
    longest: int,
)
    requires
        s.out.len() < n,
        0 <= s.used <= idc.len(),
        ({
            let above = s.run_type(size, n, idc.len() as int).0;
            let left = idc.len() - s.used - if above || s.used == idc.len() {
                0int
            } else {
                1
            };
            let room = n - s.out.len() - 1 - left - if final_above {
                1int
            } else {
                0
            };
            longest == if room > 0 {
                room
            } else {
                0
            }
        }),
    ensures
        ({
            let (above, b) = s.run_type(size, n, idc.len() as int);
            let t = s.step(size, n, idc, final_above);
            let added = t.out.len() - s.out.len();
            let (run, b2) = run_length(b, longest, above, if above {
                0
            } else {
                s.code(idc) as int
            });
            &&& t.after_above == above
            &&& t.used == s.used + if above || s.used == idc.len() {
                0int
            } else {
                1
            }
            &&& t.used == idc.len() && above == final_above ==> t.out.len() == n && t.bits == b
            &&& t.used < idc.len() || above != final_above ==> {
                &&& t.bits == b2
                &&& 0 <= run && s.out.len() + run + 1 <= n ==> added == run + 1
                &&& run >= 0 && s.out.len() + run + 1 > n ==> t.out.len() == n
            }
            &&& above ==> t.out == extend_above(s.out, size, added)
            &&& !above ==> forall|j: int|
                0 <= j < t.out.len() ==> #[trigger] t.out[j] == (if j < s.out.len() {
                    s.out[j]
                } else {
                    s.index(idc, size)
                })
        }),
{
    let (above, b) = s.run_type(size, n, idc.len() as int);
    let t = s.step(size, n, idc, final_above);
    lemma_step_grows(s, size, n, idc, final_above);
    let used = if above {
        s.used
    } else {
        min_int(s.used + 1, idc.len() as int)
    };
    let left = idc.len() - used;
    let reserved = left + if final_above {
        1int
    } else {
        0
    };
    assert(longest == max_int(n - (s.out.len() + 1 + reserved), 0));
    let run = if left == 0 && above == final_above {
        n - s.out.len() - 1
    } else {
        run_length(b, longest, above, if above {
            0
        } else {
            s.code(idc) as int
        }).0
    };
    let count = min_int(max_int(run, 0) + 1, n - s.out.len());
    if above {
        assert(t.out == extend_above(s.out, size, count));
        lemma_extend_above_len(s.out, size, count);
    } else {
        assert(t.out == extend_by(s.out, s.index(idc, size), count));
    }
    assert(t.out.len() == s.out.len() + count);
}

/// A sample shows the palette entry of its index, or its escape value. Positions are scanned to and
/// fro; a transposed block is scanned by columns.
pub proof fn samples_show_their_index(
    cu: PaletteCu,
    size: int,
    c: int,
    sub: (usize, usize),
    x: int,
    y: int,
    px: int,
    py: int,
    scan: int,
)
    requires
        cu.transpose ==> px == y * sub.1 && py == x * sub.0,
        !cu.transpose ==> px == x * sub.0 && py == y * sub.1,
        0 <= px < size,
        0 <= py,
        py % 2 == 0 ==> scan == py * size + px,
        py % 2 == 1 ==> scan == py * size + (size - 1 - px),
        scan < cu.indices@.len(),
    ensures
        ({
            let i = cu.indices@[scan];
            let v = cu.sample(size, c, sub, x, y);
            &&& i == cu.escape_index && scan < cu.escapes@.len() ==> v == cu.escapes@[scan]@[c]
            &&& i != cu.escape_index && i < cu.palette@.len() ==> v == cu.palette@[i as int]@[c]
            &&& i != cu.escape_index && i >= cu.palette@.len() ==> v == 0
        }),
{
}

proof fn lemma_last_row_covers(target: Target, size: int, i: int, k: int)
    requires
        target.last_row(size, i, k) is Some,
    ensures
        ({
            let y = target.last_row(size, i, k)->0;
            &&& 0 <= y < k
            &&& target.covers(
                size,
                i - (target.origin.1 + y) * target.stride,
                target.origin.1 + y,
            )
        }),
    decreases k,
{
    let py = target.origin.1 + k - 1;
    if k > 0 && !target.covers(size, i - py * target.stride, py) {
        lemma_last_row_covers(target, size, i, k - 1);
    }
}

/// Samples outside the block or outside the picture stay.
pub proof fn other_positions_stay(
    target: Target,
    cu: PaletteCu,
    size: int,
    c: int,
    before: Seq<u16>,
    after: Seq<u16>,
    px: int,
    py: int,
)
    requires
        target.written(cu, size, c, before, after),
        target.dims.0 <= target.stride,
        0 <= px < target.stride,
        0 <= py,
        py * target.stride + px < before.len(),
        !(target.origin.0 <= px < target.origin.0 + size / target.sub.0 as int && px
            < target.dims.0 && target.origin.1 <= py < target.origin.1 + size / target.sub.1 as int
            && py < target.dims.1),
    ensures
        after.len() == before.len(),
        after[py * target.stride + px] == before[py * target.stride + px],
{
    let i = py * target.stride + px;
    let k = size / target.sub.1 as int;
    assert(0 <= py * target.stride) by (nonlinear_arith)
        requires
            0 <= py,
            0 <= target.stride,
    ;
    if target.last_row(size, i, k) is Some {
        lemma_last_row_covers(target, size, i, k);
        let y = target.last_row(size, i, k)->0;
        let qy = target.origin.1 + y;
        let qx = i - qy * target.stride;
        lemma_row_major(qy, qx, target.stride as int, qy + 1);
        lemma_row_major(py, px, target.stride as int, py + 1);
        assert(qy == py && qx == px);
    }
}

/// The escape is one more index.
pub proof fn escapes_add_an_index(palette_size: int)
    ensures
        map_symbols(palette_size, false) == palette_size,
        map_symbols(palette_size, true) == palette_size + 1,
        COPY_ABOVE_MODE == 1,
{
}

/// Bins given in advance are read in their order, several of them as a number with the first bin
/// most significant. A bin is set if it is not zero, and past the end all bins are clear.
pub proof fn listed_bins_are_read_in_order(list: BinList, n: int)
    requires
        0 <= n < 32,
        list.bins@.len() <= usize::MAX,
    ensures
        list.bin_at(list.pos as int) == (if list.pos < list.bins@.len() && list.bins@[list.pos as int]
            != 0 {
            1int
        } else {
            0
        }),
        list.answer(Bin::Bypass) == list.bin_at(list.pos as int),
        list.answer(Bin::RunType) == list.bin_at(list.pos as int),
        list.answer(Bin::BypassBits { n: 0 }) == 0,
        list.answer(Bin::BypassBits { n: n + 1 }) == 2 * list.answer(Bin::BypassBits { n })
            + list.bin_at(list.pos + n),
        0 <= list.answer(Bin::BypassBits { n }) < p2(n),
        list.pos + n <= list.bins@.len() ==> list.after(Bin::BypassBits { n }).pos == list.pos + n,
        list.pos < list.bins@.len() ==> list.after(Bin::Bypass).pos == list.pos + 1,
        list.after(Bin::Bypass).bins == list.bins,
{
    lemma_listed_value(list, n);
    lemma_p2_values();
    lemma_p2_mono(n + 1, 32);
}

proof fn lemma_listed_value(list: BinList, n: int)
    requires
        0 <= n <= 32,
    ensures
        0 <= list.value(n) < p2(n),
    decreases n,
{
    if n > 0 {
        lemma_listed_value(list, n - 1);
        lemma_p2_values();
        lemma_p2_mono(n, 32);
    }
}

/// A predictor has at least one component.
pub proof fn predictors_have_a_component(p: PalettePredictor)
    ensures
        p.num_comps >= 1 ==> p.comps() == p.num_comps,
        p.num_comps == 0 ==> p.comps() == 1,
{
}

} // verus!
