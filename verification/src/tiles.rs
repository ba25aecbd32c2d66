//! Division of a picture into tiles: the boundaries of tile columns and rows in coding-tree blocks
//! (CTBs), and the conversion between raster addresses and tile-scan addresses.
use vstd::prelude::*;
use crate::arith::{clip3, floor_over, lemma_row_major, lemma_row_major_split, max_int, min_int};

verus! {

/// The parts of a picture parameter set that concern tiles and references.
pub struct Pps {
    pub tiles_enabled: bool,
    pub num_tile_columns: u32,
    pub num_tile_rows: u32,
    pub tile_uniform_spacing: bool,
    pub tile_column_widths: Vec<u32>,
    pub tile_row_heights: Vec<u32>,
    pub loop_filter_across_tiles: bool,
    /// The picture may refer to itself.
    pub curr_pic_ref_enabled: bool,
}

impl Pps {
    /// A parameter set without tiles.
    pub fn untiled() -> (r: Pps)
        ensures
            !r.tiles_enabled,
            r.num_tile_columns == 1,
            r.num_tile_rows == 1,
            r.tile_uniform_spacing,
            r.tile_column_widths@ == Seq::<u32>::empty(),
            r.tile_row_heights@ == Seq::<u32>::empty(),
            r.loop_filter_across_tiles,
            !r.curr_pic_ref_enabled,
    {
        Pps {
            tiles_enabled: false,
            num_tile_columns: 1,
            num_tile_rows: 1,
            tile_uniform_spacing: true,
            tile_column_widths: Vec::new(),
            tile_row_heights: Vec::new(),
            loop_filter_across_tiles: true,
            curr_pic_ref_enabled: false,
        }
    }
}

/// Tile boundaries along one dimension: `b[0] == 0`, each tile has at least one CTB, and the last
/// boundary is the extent of the picture.
pub open spec fn bounds_ok(b: Seq<int>, total: int) -> bool {
    &&& b.len() >= 2
    &&& b[0] == 0
    &&& b.last() == total
    &&& forall|i: int, j: int| 0 <= i < j < b.len() ==> #[trigger] b[i] < #[trigger] b[j]
}

/// The tile that contains position `c`: the last one among the first `n + 1` that starts at or
/// before it.
pub open spec fn cell(b: Seq<int>, c: int, n: int) -> int
    decreases n,
{
    if n <= 0 {
        0
    } else if b[n] <= c {
        n
    } else {
        cell(b, c, n - 1)
    }
}

/// The tile of `b` that contains position `c`.
pub open spec fn tile_at(b: Seq<int>, c: int) -> int {
    cell(b, c, b.len() - 2)
}

pub open spec fn size_at(b: Seq<int>, i: int) -> int {
    b[i + 1] - b[i]
}

/// Tile-scan address of the CTB at `(x, y)`: all CTBs of earlier tile rows, of earlier tiles in the
/// row, and those before it in its own tile.
pub open spec fn scan_address(cb: Seq<int>, rb: Seq<int>, x: int, y: int) -> int {
    let tx = tile_at(cb, x);
    let ty = tile_at(rb, y);
    rb[ty] * cb.last() + size_at(rb, ty) * cb[tx] + (y - rb[ty]) * size_at(cb, tx) + (x - cb[tx])
}

/// The position at a tile-scan address.
pub open spec fn scan_position(cb: Seq<int>, rb: Seq<int>, ts: int) -> (int, int) {
    let ty = tile_at(rb, ts / cb.last());
    let h = size_at(rb, ty);
    let in_row = ts - rb[ty] * cb.last();
    let tx = tile_at(cb, in_row / h);
    let w = size_at(cb, tx);
    let in_tile = in_row - h * cb[tx];
    (cb[tx] + in_tile % w, rb[ty] + in_tile / w)
}

proof fn lemma_cell_range(b: Seq<int>, total: int, c: int, n: int)
    requires
        bounds_ok(b, total),
        0 <= c,
        0 <= n <= b.len() - 2,
        c < b[n + 1],
    ensures
        0 <= cell(b, c, n) <= n,
        b[cell(b, c, n)] <= c < b[cell(b, c, n) + 1],
    decreases n,
{
    if n > 0 && b[n] > c {
        lemma_cell_range(b, total, c, n - 1);
    }
}

proof fn lemma_tile_at(b: Seq<int>, total: int, c: int)
    requires
        bounds_ok(b, total),
        0 <= c < total,
    ensures
        0 <= tile_at(b, c) < b.len() - 1,
        b[tile_at(b, c)] <= c < b[tile_at(b, c) + 1],
        0 <= b[tile_at(b, c)],
        b[tile_at(b, c) + 1] <= total,
        size_at(b, tile_at(b, c)) >= 1,
{
    lemma_cell_range(b, total, c, b.len() - 2);
}

proof fn lemma_cell_unique(b: Seq<int>, total: int, c: int, i: int, n: int)
    requires
        bounds_ok(b, total),
        0 <= i <= n <= b.len() - 2,
        b[i] <= c < b[i + 1],
    ensures
        cell(b, c, n) == i,
    decreases n,
{
    if n > i {
        assert(b[i + 1] <= b[n]) by {
            if i + 1 < n {
                assert(b[i + 1] < b[n]);
            }
        }
        lemma_cell_unique(b, total, c, i, n - 1);
    }
}

proof fn lemma_tile_unique(b: Seq<int>, total: int, c: int, i: int)
    requires
        bounds_ok(b, total),
        0 <= i < b.len() - 1,
        b[i] <= c < b[i + 1],
    ensures
        tile_at(b, c) == i,
{
    lemma_cell_unique(b, total, c, i, b.len() - 2);
}

/// Where a tile-scan address lies: in which tile, and at which offset in it.
proof fn lemma_scan_parts(cb: Seq<int>, rb: Seq<int>, tx: int, ty: int, o: int)
    requires
        bounds_ok(cb, cb.last()),
        bounds_ok(rb, rb.last()),
        0 <= tx < cb.len() - 1,
        0 <= ty < rb.len() - 1,
        0 <= o < size_at(rb, ty) * size_at(cb, tx),
    ensures
        ({
            let ts = rb[ty] * cb.last() + size_at(rb, ty) * cb[tx] + o;
            let w = size_at(cb, tx);
            &&& 0 <= ts < cb.last() * rb.last()
            &&& tile_at(rb, ts / cb.last()) == ty
            &&& tile_at(cb, (ts - rb[ty] * cb.last()) / size_at(rb, ty)) == tx
            &&& scan_position(cb, rb, ts) == (cb[tx] + o % w, rb[ty] + o / w)
            &&& 0 <= o % w < w
            &&& 0 <= o / w < size_at(rb, ty)
        }),
{
    let c = cb.last();
    let h = size_at(rb, ty);
    let w = size_at(cb, tx);
    let ts = rb[ty] * c + h * cb[tx] + o;
    assert(cb[tx] < cb[tx + 1]);
    assert(rb[ty] < rb[ty + 1]);
    assert(cb[tx + 1] <= c) by {
        if tx + 1 < cb.len() - 1 {
            assert(cb[tx + 1] < cb[cb.len() - 1]);
        }
    }
    assert(0 <= cb[tx]) by {
        if tx > 0 {
            assert(cb[0] < cb[tx]);
        }
    }
    assert(0 <= rb[ty]) by {
        if ty > 0 {
            assert(rb[0] < rb[ty]);
        }
    }
    assert(rb[ty + 1] <= rb.last()) by {
        if ty + 1 < rb.len() - 1 {
            assert(rb[ty + 1] < rb[rb.len() - 1]);
        }
    }
    let in_row = h * cb[tx] + o;
    assert(h * cb[tx] + h * w == h * cb[tx + 1]) by (nonlinear_arith)
        requires
            w == cb[tx + 1] - cb[tx],
    ;
    assert(h * cb[tx + 1] <= h * c) by (nonlinear_arith)
        requires
            h >= 1,
            cb[tx + 1] <= c,
    ;
    assert(0 <= h * cb[tx]) by (nonlinear_arith)
        requires
            h >= 1,
            0 <= cb[tx],
    ;
    assert(0 <= in_row < h * c);
    let q = ts / c;
    vstd::arithmetic::div_mod::lemma_fundamental_div_mod(ts, c);
    assert(rb[ty] <= q < rb[ty + 1]) by (nonlinear_arith)
        requires
            ts == rb[ty] * c + in_row,
            0 <= in_row < h * c,
            h == rb[ty + 1] - rb[ty],
            ts == c * q + ts % c,
            0 <= ts % c < c,
    ;
    assert(0 <= rb[ty] * c) by (nonlinear_arith)
        requires
            0 <= rb[ty],
            0 < c,
    ;
    assert(rb[ty] * c + h * c <= c * rb.last()) by (nonlinear_arith)
        requires
            h == rb[ty + 1] - rb[ty],
            rb[ty + 1] <= rb.last(),
            0 < c,
    ;
    lemma_tile_unique(rb, rb.last(), q, ty);
    let p = in_row / h;
    vstd::arithmetic::div_mod::lemma_fundamental_div_mod(in_row, h);
    assert(cb[tx] <= p < cb[tx + 1]) by (nonlinear_arith)
        requires
            in_row == h * cb[tx] + o,
            0 <= o < h * w,
            w == cb[tx + 1] - cb[tx],
            in_row == h * p + in_row % h,
            0 <= in_row % h < h,
    ;
    lemma_tile_unique(cb, c, p, tx);
    vstd::arithmetic::div_mod::lemma_fundamental_div_mod(o, w);
    let v = o / w;
    assert(0 <= v < h) by (nonlinear_arith)
        requires
            0 <= o < h * w,
            o == w * v + o % w,
            0 <= o % w < w,
    ;
}

/// The offset of a position in its tile lies inside the tile.
proof fn lemma_tile_offset(cb: Seq<int>, rb: Seq<int>, x: int, y: int)
    requires
        bounds_ok(cb, cb.last()),
        bounds_ok(rb, rb.last()),
        0 <= x < cb.last(),
        0 <= y < rb.last(),
    ensures
        ({
            let tx = tile_at(cb, x);
            let ty = tile_at(rb, y);
            let w = size_at(cb, tx);
            let o = (y - rb[ty]) * w + (x - cb[tx]);
            &&& 0 <= o < size_at(rb, ty) * w
            &&& o % w == x - cb[tx]
            &&& o / w == y - rb[ty]
        }),
{
    lemma_tile_at(cb, cb.last(), x);
    lemma_tile_at(rb, rb.last(), y);
    let tx = tile_at(cb, x);
    let ty = tile_at(rb, y);
    lemma_row_major(y - rb[ty], x - cb[tx], size_at(cb, tx), size_at(rb, ty));
}

/// Converting a position to its tile-scan address and back gives the position.
pub proof fn scan_round_trip(cb: Seq<int>, rb: Seq<int>, x: int, y: int)
    requires
        bounds_ok(cb, cb.last()),
        bounds_ok(rb, rb.last()),
        0 <= x < cb.last(),
        0 <= y < rb.last(),
    ensures
        0 <= scan_address(cb, rb, x, y) < cb.last() * rb.last(),
        scan_position(cb, rb, scan_address(cb, rb, x, y)) == (x, y),
{
    lemma_tile_at(cb, cb.last(), x);
    lemma_tile_at(rb, rb.last(), y);
    lemma_tile_offset(cb, rb, x, y);
    let tx = tile_at(cb, x);
    let ty = tile_at(rb, y);
    lemma_scan_parts(cb, rb, tx, ty, (y - rb[ty]) * size_at(cb, tx) + (x - cb[tx]));
}

/// Converting a tile-scan address to its position and back gives the address: every address is the
/// address of exactly one CTB.
pub proof fn scan_covers_every_address(cb: Seq<int>, rb: Seq<int>, ts: int)
    requires
        bounds_ok(cb, cb.last()),
        bounds_ok(rb, rb.last()),
        0 <= ts < cb.last() * rb.last(),
    ensures
        ({
            let p = scan_position(cb, rb, ts);
            &&& 0 <= p.0 < cb.last()
            &&& 0 <= p.1 < rb.last()
            &&& scan_address(cb, rb, p.0, p.1) == ts
        }),
{
    let c = cb.last();
    assert(cb[0] < cb[cb.len() - 1]);
    let q = ts / c;
    vstd::arithmetic::div_mod::lemma_fundamental_div_mod(ts, c);
    assert(0 <= q < rb.last()) by (nonlinear_arith)
        requires
            0 <= ts < c * rb.last(),
            ts == c * q + ts % c,
            0 <= ts % c < c,
    ;
    lemma_tile_at(rb, rb.last(), q);
    let ty = tile_at(rb, q);
    let h = size_at(rb, ty);
    let in_row = ts - rb[ty] * c;
    assert(0 <= in_row < h * c) by (nonlinear_arith)
        requires
            in_row == ts - rb[ty] * c,
            rb[ty] <= q < rb[ty + 1],
            h == rb[ty + 1] - rb[ty],
            ts == c * q + ts % c,
            0 <= ts % c < c,
    ;
    let p = in_row / h;
    vstd::arithmetic::div_mod::lemma_fundamental_div_mod(in_row, h);
    assert(0 <= p < c) by (nonlinear_arith)
        requires
            0 <= in_row < h * c,
            in_row == h * p + in_row % h,
            0 <= in_row % h < h,
    ;
    lemma_tile_at(cb, c, p);
    let tx = tile_at(cb, p);
    let w = size_at(cb, tx);
    let o = in_row - h * cb[tx];
    assert(0 <= o < h * w) by (nonlinear_arith)
        requires
            o == in_row - h * cb[tx],
            cb[tx] <= p < cb[tx + 1],
            w == cb[tx + 1] - cb[tx],
            in_row == h * p + in_row % h,
            0 <= in_row % h < h,
    ;
    lemma_scan_parts(cb, rb, tx, ty, o);
    let x = cb[tx] + o % w;
    let y = rb[ty] + o / w;
    lemma_tile_unique(cb, c, x, tx);
    lemma_tile_unique(rb, rb.last(), y, ty);
    vstd::arithmetic::div_mod::lemma_fundamental_div_mod(o, w);
    assert((o / w) * w == w * (o / w)) by (nonlinear_arith);
}

/// The size asked for tile `i`; missing and zero sizes count as one.
pub open spec fn asked_size(explicit: Seq<u32>, i: int) -> int {
    if i < explicit.len() {
        max_int(explicit[i] as int, 1)
    } else {
        1
    }
}

/// Start of tile `i` with explicit sizes: each tile gets what is asked, as far as one CTB remains
/// for every later tile.
pub open spec fn explicit_start(n: int, total: int, explicit: Seq<u32>, i: int) -> int
    decreases i,
{
    if i <= 0 {
        0
    } else {
        let used = explicit_start(n, total, explicit, i - 1);
        used + min_int(asked_size(explicit, i - 1), total - used - (n - i))
    }
}

/// Boundary `i` of `n` tiles over `total` CTBs: evenly spaced, or from explicit sizes with the last
/// tile taking the rest.
pub open spec fn tile_bound(n: int, total: int, uniform: bool, explicit: Seq<u32>, i: int) -> int {
    if uniform {
        (i * total) / n
    } else if i >= n {
        total
    } else {
        explicit_start(n, total, explicit, i)
    }
}

pub open spec fn tile_bounds(n: int, total: int, uniform: bool, explicit: Seq<u32>) -> Seq<int> {
    Seq::new((n + 1) as nat, |i: int| tile_bound(n, total, uniform, explicit, i))
}

proof fn lemma_explicit_start(n: int, total: int, explicit: Seq<u32>, i: int)
    requires
        1 <= n <= total,
        0 <= i <= n - 1,
    ensures
        i <= explicit_start(n, total, explicit, i) <= total - (n - i),
    decreases i,
{
    if i > 0 {
        lemma_explicit_start(n, total, explicit, i - 1);
    }
}

proof fn lemma_uniform_step(n: int, total: int, i: int)
    requires
        1 <= n <= total,
        0 <= i,
    ensures
        (i * total) / n < ((i + 1) * total) / n,
        0 <= (i * total) / n,
{
    assert(0 <= i * total && (i + 1) * total >= i * total + n) by (nonlinear_arith)
        requires
            1 <= n <= total,
            0 <= i,
    ;
    vstd::arithmetic::div_mod::lemma_div_is_ordered(i * total + n, (i + 1) * total, n);
    vstd::arithmetic::div_mod::lemma_div_plus_one(i * total, n);
    vstd::arithmetic::div_mod::lemma_div_is_ordered(0, i * total, n);
}

proof fn lemma_tile_bound_step(n: int, total: int, uniform: bool, explicit: Seq<u32>, i: int)
    requires
        1 <= n <= total,
        0 <= i < n,
    ensures
        tile_bound(n, total, uniform, explicit, i) < tile_bound(n, total, uniform, explicit, i + 1),
{
    if uniform {
        lemma_uniform_step(n, total, i);
    } else {
        lemma_explicit_start(n, total, explicit, i);
        if i + 1 < n {
            lemma_explicit_start(n, total, explicit, i + 1);
        }
    }
}

proof fn lemma_tile_bound_increasing(
    n: int,
    total: int,
    uniform: bool,
    explicit: Seq<u32>,
    i: int,
    j: int,
)
    requires
        1 <= n <= total,
        0 <= i < j <= n,
    ensures
        tile_bound(n, total, uniform, explicit, i) < tile_bound(n, total, uniform, explicit, j),
    decreases j - i,
{
    lemma_tile_bound_step(n, total, uniform, explicit, j - 1);
    if i < j - 1 {
        lemma_tile_bound_increasing(n, total, uniform, explicit, i, j - 1);
    }
}

/// However the tiles are given, they are not empty and make up the whole picture.
pub proof fn tiles_cover_the_picture(n: int, total: int, uniform: bool, explicit: Seq<u32>)
    requires
        1 <= n <= total,
    ensures
        bounds_ok(tile_bounds(n, total, uniform, explicit), total),
{
    let b = tile_bounds(n, total, uniform, explicit);
    assert forall|i: int, j: int| 0 <= i < j < b.len() implies #[trigger] b[i] < #[trigger] b[j] by {
        lemma_tile_bound_increasing(n, total, uniform, explicit, i, j);
    }
    assert(0 * total == 0) by (nonlinear_arith);
    vstd::arithmetic::div_mod::lemma_div_multiples_vanish(total, n);
    assert(n * total == total * n) by (nonlinear_arith);
    assert(0int / n == 0) by (nonlinear_arith)
        requires
            n >= 1,
    ;
}

/// Sizes of the tiles along one dimension.
fn tile_sizes(n: usize, total_ctbs: usize, uniform: bool, explicit: &[u32]) -> (out: Vec<usize>)
    requires
        1 <= n <= total_ctbs,
        n * total_ctbs <= usize::MAX,
    ensures
        out.len() == n,
        forall|i: int|
            0 <= i < n ==> #[trigger] out@[i] == size_at(
                tile_bounds(n as int, total_ctbs as int, uniform, explicit@),
                i,
            ),
{
    let mut out: Vec<usize> = Vec::new();
    let ghost b = tile_bounds(n as int, total_ctbs as int, uniform, explicit@);
    if uniform {
        for i in 0..n
            invariant
                1 <= n <= total_ctbs,
                n * total_ctbs <= usize::MAX,
                uniform,
                b == tile_bounds(n as int, total_ctbs as int, uniform, explicit@),
                out.len() == i,
                forall|j: int| 0 <= j < i ==> #[trigger] out@[j] == size_at(b, j),
        {
            proof {
                lemma_uniform_step(n as int, total_ctbs as int, i as int);
                assert(0 <= i * total_ctbs && (i + 1) * total_ctbs <= n * total_ctbs)
                    by (nonlinear_arith)
                    requires
                        i < n,
                ;
                assert(i * total_ctbs <= (i + 1) * total_ctbs) by (nonlinear_arith);
            }
            let next: usize = ((i + 1) * total_ctbs) / n;
            let start: usize = (i * total_ctbs) / n;
            assert(next == b[i + 1] && start == b[i as int]);
            out.push(next - start);
        }
    } else {
        let mut used: usize = 0;
        for i in 0..n
            invariant
                1 <= n <= total_ctbs,
                !uniform,
                b == tile_bounds(n as int, total_ctbs as int, uniform, explicit@),
                out.len() == i,
                i < n ==> used == explicit_start(
                    n as int,
                    total_ctbs as int,
                    explicit@,
                    i as int,
                ),
                forall|j: int| 0 <= j < i ==> #[trigger] out@[j] == size_at(b, j),
        {
            proof {
                lemma_explicit_start(n as int, total_ctbs as int, explicit@, i as int);
                assert(b[i as int] == used);
            }
            if i + 1 < n {
                let asked: usize = if i < explicit.len() && explicit[i] >= 1 {
                    explicit[i] as usize
                } else {
                    1
                };
                let room: usize = total_ctbs - used - (n - 1 - i);
                let w: usize = if asked <= room {
                    asked
                } else {
                    room
                };
                proof {
                    lemma_explicit_start(n as int, total_ctbs as int, explicit@, i + 1);
                    assert(b[i + 1] == used + w);
                }
                out.push(w);
                used = used + w;
            } else {
                assert(b[i + 1] == total_ctbs);
                out.push(total_ctbs - used);
            }
        }
    }
    out
}

/// Starts of the tiles of given sizes.
fn prefix_sums(sizes: &Vec<usize>, Ghost(b): Ghost<Seq<int>>, total: usize) -> (out: Vec<usize>)
    requires
        bounds_ok(b, total as int),
        b.len() == sizes.len() + 1,
        forall|i: int| 0 <= i < sizes.len() ==> #[trigger] sizes@[i] == size_at(b, i),
    ensures
        out.len() == sizes.len(),
        forall|i: int| 0 <= i < out.len() ==> #[trigger] out@[i] == b[i],
{
    let mut out: Vec<usize> = Vec::new();
    let mut acc: usize = 0;
    let n: usize = sizes.len();
    for i in 0..n
        invariant
            bounds_ok(b, total as int),
            n == sizes.len(),
            b.len() == sizes.len() + 1,
            forall|j: int| 0 <= j < sizes.len() ==> #[trigger] sizes@[j] == size_at(b, j),
            out.len() == i,
            acc == b[i as int],
            forall|j: int| 0 <= j < i ==> #[trigger] out@[j] == b[j],
    {
        assert(b[i + 1] <= total) by {
            if i + 1 < b.len() - 1 {
                assert(b[i + 1] < b[b.len() - 1]);
            }
        }
        assert(sizes@[i as int] == size_at(b, i as int));
        out.push(acc);
        acc = acc + sizes[i];
    }
    out
}

/// Resolved tile geometry of a picture. Addresses count CTBs, in raster (RS) or tile-scan (TS)
/// order.
pub struct TileGrid {
    pub cols: usize,
    pub rows: usize,
    /// Left CTB column of each tile column.
    pub col_bd: Vec<usize>,
    /// Top CTB row of each tile row.
    pub row_bd: Vec<usize>,
    pub col_width: Vec<usize>,
    pub row_height: Vec<usize>,
    /// Tile-scan address by raster address.
    pub rs_to_ts: Vec<usize>,
    /// Raster address by tile-scan address.
    pub ts_to_rs: Vec<usize>,
    /// Tile index by tile-scan address.
    pub tile_id: Vec<usize>,
    pub ctb_cols: usize,
    pub ctb_rows: usize,
    pub loop_filter_across_tiles: bool,
}

/// The boundaries given by tile starts and the picture extent.
pub open spec fn bounds_of(starts: Seq<usize>, total: int) -> Seq<int> {
    Seq::new(
        (starts.len() + 1) as nat,
        |i: int|
            if i < starts.len() {
                starts[i] as int
            } else {
                total
            },
    )
}

impl TileGrid {
    pub open spec fn col_bounds(self) -> Seq<int> {
        bounds_of(self.col_bd@, self.ctb_cols as int)
    }

    pub open spec fn row_bounds(self) -> Seq<int> {
        bounds_of(self.row_bd@, self.ctb_rows as int)
    }

    /// Number of CTBs in the picture.
    pub open spec fn pic(self) -> int {
        self.ctb_cols * self.ctb_rows
    }

    /// The tile that contains the CTB at `(x, y)`.
    pub open spec fn tile_of(self, x: int, y: int) -> int {
        tile_at(self.row_bounds(), y) * self.cols + tile_at(self.col_bounds(), x)
    }

    pub open spec fn wf(self) -> bool {
        &&& bounds_ok(self.col_bounds(), self.ctb_cols as int)
        &&& bounds_ok(self.row_bounds(), self.ctb_rows as int)
        &&& self.col_bd.len() == self.cols
        &&& self.row_bd.len() == self.rows
        &&& self.col_width.len() == self.cols
        &&& self.row_height.len() == self.rows
        &&& forall|i: int|
            0 <= i < self.cols ==> #[trigger] self.col_width@[i] == size_at(self.col_bounds(), i)
        &&& forall|i: int|
            0 <= i < self.rows ==> #[trigger] self.row_height@[i] == size_at(self.row_bounds(), i)
        &&& self.pic() <= usize::MAX
        &&& self.rs_to_ts.len() == self.pic()
        &&& self.ts_to_rs.len() == self.pic()
        &&& self.tile_id.len() == self.pic()
        &&& forall|rs: int|
            0 <= rs < self.pic() ==> #[trigger] self.rs_to_ts@[rs] == scan_address(
                self.col_bounds(),
                self.row_bounds(),
                rs % self.ctb_cols as int,
                rs / self.ctb_cols as int,
            )
        &&& forall|ts: int|
            0 <= ts < self.pic() ==> #[trigger] self.ts_to_rs@[ts] == scan_position(
                self.col_bounds(),
                self.row_bounds(),
                ts,
            ).1 * self.ctb_cols + scan_position(self.col_bounds(), self.row_bounds(), ts).0
        &&& forall|ts: int|
            0 <= ts < self.pic() ==> #[trigger] self.tile_id@[ts] == self.tile_of(
                scan_position(self.col_bounds(), self.row_bounds(), ts).0,
                scan_position(self.col_bounds(), self.row_bounds(), ts).1,
            )
    }
}

/// The last tile that starts at or before `c`.
fn last_start_at_or_before(starts: &Vec<usize>, Ghost(b): Ghost<Seq<int>>, c: usize) -> (r: usize)
    requires
        b.len() == starts.len() + 1,
        starts.len() >= 1,
        forall|i: int| 0 <= i < starts.len() ==> #[trigger] starts@[i] == b[i],
        bounds_ok(b, b.last()),
    ensures
        r == tile_at(b, c as int),
        r < starts.len(),
{
    let mut r: usize = starts.len() - 1;
    while r > 0 && starts[r] > c
        invariant
            b.len() == starts.len() + 1,
            r < starts.len(),
            forall|i: int| 0 <= i < starts.len() ==> #[trigger] starts@[i] == b[i],
            tile_at(b, c as int) == cell(b, c as int, r as int),
        decreases r,
    {
        r = r - 1;
    }
    r
}

/// Raster address `rs` of a picture with the given tile boundaries.
pub open spec fn scan_of(cb: Seq<int>, rb: Seq<int>, rs: int) -> int {
    scan_address(cb, rb, rs % cb.last(), rs / cb.last())
}

proof fn lemma_scan_injective(cb: Seq<int>, rb: Seq<int>, a: int, b: int)
    requires
        bounds_ok(cb, cb.last()),
        bounds_ok(rb, rb.last()),
        0 <= a < cb.last() * rb.last(),
        0 <= b < cb.last() * rb.last(),
        scan_of(cb, rb, a) == scan_of(cb, rb, b),
    ensures
        a == b,
{
    let c = cb.last();
    assert(cb[0] < cb[cb.len() - 1]);
    assert(c * rb.last() == rb.last() * c) by (nonlinear_arith);
    lemma_row_major_split(a, c, rb.last());
    lemma_row_major_split(b, c, rb.last());
    scan_round_trip(cb, rb, a % c, a / c);
    scan_round_trip(cb, rb, b % c, b / c);
}

proof fn lemma_scan_range(cb: Seq<int>, rb: Seq<int>, rs: int)
    requires
        bounds_ok(cb, cb.last()),
        bounds_ok(rb, rb.last()),
        0 <= rs < cb.last() * rb.last(),
    ensures
        0 <= scan_of(cb, rb, rs) < cb.last() * rb.last(),
        scan_position(cb, rb, scan_of(cb, rb, rs)) == (rs % cb.last(), rs / cb.last()),
        0 <= rs % cb.last() < cb.last(),
        0 <= rs / cb.last() < rb.last(),
        rs == (rs / cb.last()) * cb.last() + rs % cb.last(),
{
    let c = cb.last();
    assert(cb[0] < cb[cb.len() - 1]);
    assert(c * rb.last() == rb.last() * c) by (nonlinear_arith);
    lemma_row_major_split(rs, c, rb.last());
    scan_round_trip(cb, rb, rs % c, rs / c);
}

/// Every tile-scan address is that of the raster address at its position.
proof fn lemma_scan_onto(cb: Seq<int>, rb: Seq<int>, ts: int)
    requires
        bounds_ok(cb, cb.last()),
        bounds_ok(rb, rb.last()),
        0 <= ts < cb.last() * rb.last(),
    ensures
        ({
            let p = scan_position(cb, rb, ts);
            let rs = p.1 * cb.last() + p.0;
            &&& 0 <= rs < cb.last() * rb.last()
            &&& scan_of(cb, rb, rs) == ts
            &&& rs % cb.last() == p.0
            &&& rs / cb.last() == p.1
        }),
{
    scan_covers_every_address(cb, rb, ts);
    let p = scan_position(cb, rb, ts);
    lemma_row_major(p.1, p.0, cb.last(), rb.last());
    assert(cb.last() * rb.last() == rb.last() * cb.last()) by (nonlinear_arith);
}

/// There are at most as many tiles as CTBs.
proof fn lemma_bounds_count(b: Seq<int>, total: int, i: int)
    requires
        bounds_ok(b, total),
        0 <= i < b.len(),
    ensures
        b[i] >= i,
        b.len() - 1 <= total,
    decreases b.len() - i,
{
    if i < b.len() - 1 {
        lemma_bounds_count(b, total, i + 1);
    }
    lemma_start_at_least(b, total, i);
    lemma_start_at_least(b, total, b.len() - 1);
}

proof fn lemma_start_at_least(b: Seq<int>, total: int, i: int)
    requires
        bounds_ok(b, total),
        0 <= i < b.len(),
    ensures
        b[i] >= i,
    decreases i,
{
    if i > 0 {
        lemma_start_at_least(b, total, i - 1);
        assert(b[i - 1] < b[i]);
    }
}

/// The three address tables of a tiled picture.
fn scan_tables(
    ctb_cols: usize,
    ctb_rows: usize,
    col_bd: &Vec<usize>,
    row_bd: &Vec<usize>,
    col_width: &Vec<usize>,
    row_height: &Vec<usize>,
    Ghost(cb): Ghost<Seq<int>>,
    Ghost(rb): Ghost<Seq<int>>,
) -> (r: (Vec<usize>, Vec<usize>, Vec<usize>))
    requires
        bounds_ok(cb, ctb_cols as int),
        bounds_ok(rb, ctb_rows as int),
        cb.len() == col_bd.len() + 1,
        rb.len() == row_bd.len() + 1,
        col_width.len() == col_bd.len(),
        row_height.len() == row_bd.len(),
        forall|i: int| 0 <= i < col_bd.len() ==> #[trigger] col_bd@[i] == cb[i],
        forall|i: int| 0 <= i < row_bd.len() ==> #[trigger] row_bd@[i] == rb[i],
        forall|i: int| 0 <= i < col_width.len() ==> #[trigger] col_width@[i] == size_at(cb, i),
        forall|i: int| 0 <= i < row_height.len() ==> #[trigger] row_height@[i] == size_at(rb, i),
        ctb_cols * ctb_rows <= usize::MAX,
    ensures
        r.0.len() == ctb_cols * ctb_rows,
        r.1.len() == ctb_cols * ctb_rows,
        r.2.len() == ctb_cols * ctb_rows,
        forall|rs: int|
            0 <= rs < ctb_cols * ctb_rows ==> #[trigger] r.0@[rs] == scan_of(cb, rb, rs),
        forall|ts: int|
            0 <= ts < ctb_cols * ctb_rows ==> #[trigger] r.1@[ts] == scan_position(cb, rb, ts).1
                * ctb_cols + scan_position(cb, rb, ts).0,
        forall|ts: int|
            0 <= ts < ctb_cols * ctb_rows ==> #[trigger] r.2@[ts] == tile_at(
                rb,
                scan_position(cb, rb, ts).1,
            ) * col_bd.len() + tile_at(cb, scan_position(cb, rb, ts).0),
{
    let pic: usize = ctb_cols * ctb_rows;
    let mut rs_to_ts: Vec<usize> = Vec::new();
    let mut tile_rs: Vec<usize> = Vec::new();
    for rs in 0..pic
        invariant
            pic == ctb_cols * ctb_rows,
            bounds_ok(cb, ctb_cols as int),
            bounds_ok(rb, ctb_rows as int),
            cb.len() == col_bd.len() + 1,
            rb.len() == row_bd.len() + 1,
            col_width.len() == col_bd.len(),
            row_height.len() == row_bd.len(),
            forall|i: int| 0 <= i < col_bd.len() ==> #[trigger] col_bd@[i] == cb[i],
            forall|i: int| 0 <= i < row_bd.len() ==> #[trigger] row_bd@[i] == rb[i],
            forall|i: int| 0 <= i < col_width.len() ==> #[trigger] col_width@[i] == size_at(cb, i),
            forall|i: int|
                0 <= i < row_height.len() ==> #[trigger] row_height@[i] == size_at(rb, i),
            rs_to_ts.len() == rs,
            tile_rs.len() == rs,
            forall|j: int| 0 <= j < rs ==> #[trigger] rs_to_ts@[j] == scan_of(cb, rb, j),
            forall|j: int|
                0 <= j < rs ==> #[trigger] tile_rs@[j] == tile_at(rb, j / ctb_cols as int)
                    * col_bd.len() + tile_at(cb, j % ctb_cols as int),
    {
        proof {
            lemma_scan_range(cb, rb, rs as int);
        }
        let tbx: usize = rs % ctb_cols;
        let tby: usize = rs / ctb_cols;
        let tile_x: usize = last_start_at_or_before(col_bd, Ghost(cb), tbx);
        let tile_y: usize = last_start_at_or_before(row_bd, Ghost(rb), tby);
        proof {
            lemma_tile_at(cb, ctb_cols as int, tbx as int);
            lemma_tile_at(rb, ctb_rows as int, tby as int);
            lemma_tile_offset(cb, rb, tbx as int, tby as int);
            lemma_bounds_count(cb, ctb_cols as int, 0);
            lemma_bounds_count(rb, ctb_rows as int, 0);
            let a = rb[tile_y as int];
            let h = size_at(rb, tile_y as int);
            let l = cb[tile_x as int];
            let w = size_at(cb, tile_x as int);
            assert(0 <= a * ctb_cols && 0 <= h * l && 0 <= (tby - a) * w) by (nonlinear_arith)
                requires
                    0 <= a,
                    0 <= h,
                    0 <= l,
                    0 <= w,
                    a <= tby,
            ;
            let n = col_bd.len() as int;
            assert(0 <= tile_y * n && tile_y * n + n <= pic) by (nonlinear_arith)
                requires
                    0 <= tile_y < ctb_rows,
                    0 <= n <= ctb_cols,
                    pic == ctb_cols * ctb_rows,
            ;
        }
        let before_row: usize = row_bd[tile_y] * ctb_cols;
        let before_tile: usize = row_height[tile_y] * col_bd[tile_x];
        let in_tile: usize = (tby - row_bd[tile_y]) * col_width[tile_x] + (tbx - col_bd[tile_x]);
        rs_to_ts.push(before_row + before_tile + in_tile);
        tile_rs.push(tile_y * col_bd.len() + tile_x);
    }
    let mut ts_to_rs: Vec<usize> = rs_to_ts.clone();
    let mut tile_id: Vec<usize> = rs_to_ts.clone();
    for rs in 0..pic
        invariant
            pic == ctb_cols * ctb_rows,
            bounds_ok(cb, ctb_cols as int),
            bounds_ok(rb, ctb_rows as int),
            rs_to_ts.len() == pic,
            tile_rs.len() == pic,
            ts_to_rs.len() == pic,
            tile_id.len() == pic,
            forall|j: int| 0 <= j < pic ==> #[trigger] rs_to_ts@[j] == scan_of(cb, rb, j),
            forall|j: int|
                0 <= j < rs ==> ts_to_rs@[#[trigger] rs_to_ts@[j] as int] == j && tile_id@[
                rs_to_ts@[j] as int] == tile_rs@[j],
    {
        proof {
            lemma_scan_range(cb, rb, rs as int);
            assert forall|j: int| 0 <= j < rs implies #[trigger] rs_to_ts@[j] != rs_to_ts@[rs as int] by {
                if rs_to_ts@[j] == rs_to_ts@[rs as int] {
                    lemma_scan_injective(cb, rb, j, rs as int);
                }
            }
            assert forall|j: int| 0 <= j < rs implies 0 <= #[trigger] rs_to_ts@[j] < pic by {
                lemma_scan_range(cb, rb, j);
            }
        }
        let ts: usize = rs_to_ts[rs];
        ts_to_rs[ts] = rs;
        tile_id[ts] = tile_rs[rs];
    }
    proof {
        assert forall|ts: int| 0 <= ts < pic implies #[trigger] ts_to_rs@[ts] == scan_position(
            cb,
            rb,
            ts,
        ).1 * ctb_cols + scan_position(cb, rb, ts).0 by {
            lemma_scan_onto(cb, rb, ts);
            let p = scan_position(cb, rb, ts);
            assert(rs_to_ts@[p.1 * ctb_cols + p.0] == ts);
        }
        assert forall|ts: int| 0 <= ts < pic implies #[trigger] tile_id@[ts] == tile_at(
            rb,
            scan_position(cb, rb, ts).1,
        ) * col_bd.len() + tile_at(cb, scan_position(cb, rb, ts).0) by {
            lemma_scan_onto(cb, rb, ts);
            let p = scan_position(cb, rb, ts);
            assert(rs_to_ts@[p.1 * ctb_cols + p.0] == ts);
        }
    }
    (rs_to_ts, ts_to_rs, tile_id)
}

fn clamp_count(n: u32, max: usize) -> (r: usize)
    requires
        max >= 1,
    ensures
        r == clip3(1, max as int, n as int),
{
    if n < 1 {
        1
    } else if n as usize > max {
        max
    } else {
        n as usize
    }
}

impl TileGrid {
    /// Resolves the tile syntax for a picture of `ctb_cols` by `ctb_rows` CTBs; `None` without
    /// tiles.
    pub fn from_pps(pps: &Pps, ctb_cols: usize, ctb_rows: usize) -> (r: Option<TileGrid>)
        requires
            ctb_cols * ctb_cols <= usize::MAX,
            ctb_rows * ctb_rows <= usize::MAX,
            ctb_cols * ctb_rows <= usize::MAX,
        ensures
            r is None <==> (!pps.tiles_enabled || ctb_cols == 0 || ctb_rows == 0),
            match r {
                None => true,
                Some(g) => {
                    &&& g.wf()
                    &&& g.ctb_cols == ctb_cols
                    &&& g.ctb_rows == ctb_rows
                    &&& g.cols == clip3(
                        1,
                        ctb_cols as int,
                        pps.num_tile_columns as int,
                    )
                    &&& g.rows == clip3(1, ctb_rows as int, pps.num_tile_rows as int)
                    &&& g.col_bounds() == tile_bounds(
                        g.cols as int,
                        ctb_cols as int,
                        pps.tile_uniform_spacing,
                        pps.tile_column_widths@,
                    )
                    &&& g.row_bounds() == tile_bounds(
                        g.rows as int,
                        ctb_rows as int,
                        pps.tile_uniform_spacing,
                        pps.tile_row_heights@,
                    )
                    &&& g.loop_filter_across_tiles == pps.loop_filter_across_tiles
                },
            },
    {
        if !pps.tiles_enabled || ctb_cols == 0 || ctb_rows == 0 {
            return None;
        }
        let cols: usize = clamp_count(pps.num_tile_columns, ctb_cols);
        let rows: usize = clamp_count(pps.num_tile_rows, ctb_rows);
        let uniform: bool = pps.tile_uniform_spacing;
        let ghost cb = tile_bounds(
            cols as int,
            ctb_cols as int,
            uniform,
            pps.tile_column_widths@,
        );
        let ghost rb = tile_bounds(rows as int, ctb_rows as int, uniform, pps.tile_row_heights@);
        proof {
            tiles_cover_the_picture(
                cols as int,
                ctb_cols as int,
                uniform,
                pps.tile_column_widths@,
            );
            tiles_cover_the_picture(rows as int, ctb_rows as int, uniform, pps.tile_row_heights@);
            assert(cols * ctb_cols <= ctb_cols * ctb_cols) by (nonlinear_arith)
                requires
                    cols <= ctb_cols,
            ;
            assert(rows * ctb_rows <= ctb_rows * ctb_rows) by (nonlinear_arith)
                requires
                    rows <= ctb_rows,
            ;
        }
        let col_width: Vec<usize> = tile_sizes(
            cols,
            ctb_cols,
            uniform,
            pps.tile_column_widths.as_slice(),
        );
        let row_height: Vec<usize> = tile_sizes(
            rows,
            ctb_rows,
            uniform,
            pps.tile_row_heights.as_slice(),
        );
        let col_bd: Vec<usize> = prefix_sums(&col_width, Ghost(cb), ctb_cols);
        let row_bd: Vec<usize> = prefix_sums(&row_height, Ghost(rb), ctb_rows);
        let (rs_to_ts, ts_to_rs, tile_id) = scan_tables(
            ctb_cols,
            ctb_rows,
            &col_bd,
            &row_bd,
            &col_width,
            &row_height,
            Ghost(cb),
            Ghost(rb),
        );
        assert(bounds_of(col_bd@, ctb_cols as int) =~= cb);
        assert(bounds_of(row_bd@, ctb_rows as int) =~= rb);
        Some(
            TileGrid {
                cols,
                rows,
                col_bd,
                row_bd,
                col_width,
                row_height,
                rs_to_ts,
                ts_to_rs,
                tile_id,
                ctb_cols,
                ctb_rows,
                loop_filter_across_tiles: pps.loop_filter_across_tiles,
            },
        )
    }

    /// Tile-scan address of a raster address; addresses outside the picture are their own.
    pub fn rs_to_ts(&self, rs: usize) -> (r: usize)
        requires
            self.wf(),
        ensures
            r == (if rs < self.pic() {
                scan_of(self.col_bounds(), self.row_bounds(), rs as int)
            } else {
                rs as int
            }),
            rs < self.pic() ==> r < self.pic(),
    {
        if rs < self.rs_to_ts.len() {
            proof {
                lemma_scan_range(self.col_bounds(), self.row_bounds(), rs as int);
            }
            self.rs_to_ts[rs]
        } else {
            rs
        }
    }

    /// Raster address of a tile-scan address; addresses outside the picture are their own.
    pub fn ts_to_rs(&self, ts: usize) -> (r: usize)
        requires
            self.wf(),
        ensures
            r == (if ts < self.pic() {
                scan_position(self.col_bounds(), self.row_bounds(), ts as int).1 * self.ctb_cols
                    + scan_position(self.col_bounds(), self.row_bounds(), ts as int).0
            } else {
                ts as int
            }),
            ts < self.pic() ==> r < self.pic(),
    {
        if ts < self.ts_to_rs.len() {
            proof {
                lemma_scan_onto(self.col_bounds(), self.row_bounds(), ts as int);
            }
            self.ts_to_rs[ts]
        } else {
            ts
        }
    }

    /// The CTB is the first of its tile, which in the picture means its top left CTB.
    pub fn is_tile_start_rs(&self, rs: usize) -> (r: bool)
        requires
            self.wf(),
        ensures
            rs < self.pic() ==> r == self.starts_tile(
                rs as int % self.ctb_cols as int,
                rs as int / self.ctb_cols as int,
            ),
            rs >= self.pic() ==> r == (rs == self.pic()),
    {
        let ts: usize = self.rs_to_ts(rs);
        let n: usize = self.tile_id.len();
        proof {
            if rs < self.pic() {
                lemma_scan_range(self.col_bounds(), self.row_bounds(), rs as int);
                lemma_tile_start(*self, rs as int);
            }
            let cb = self.col_bounds();
            let rb = self.row_bounds();
            assert(cb[0] < cb[cb.len() - 1]);
            assert(rb[0] < rb[rb.len() - 1]);
            assert(self.ctb_cols * self.ctb_rows >= 1) by (nonlinear_arith)
                requires
                    self.ctb_cols >= 1,
                    self.ctb_rows >= 1,
            ;
        }
        if ts == 0 {
            return true;
        }
        if ts < n {
            self.tile_id[ts] != self.tile_id[ts - 1]
        } else {
            ts == n
        }
    }

    /// `(x, y)` is the top left CTB of its tile.
    pub open spec fn starts_tile(self, x: int, y: int) -> bool {
        &&& self.col_bounds()[tile_at(self.col_bounds(), x)] == x
        &&& self.row_bounds()[tile_at(self.row_bounds(), y)] == y
    }

    /// Tile column of CTB column `cx`; columns right of the picture count to the last tile.
    pub fn col_of(&self, cx: usize) -> (r: usize)
        requires
            self.wf(),
        ensures
            r == tile_at(self.col_bounds(), cx as int),
            r < self.cols,
    {
        last_start_at_or_before(&self.col_bd, Ghost(self.col_bounds()), cx)
    }

    /// Tile row of CTB row `cy`; rows below the picture count to the last tile.
    pub fn row_of(&self, cy: usize) -> (r: usize)
        requires
            self.wf(),
        ensures
            r == tile_at(self.row_bounds(), cy as int),
            r < self.rows,
    {
        last_start_at_or_before(&self.row_bd, Ghost(self.row_bounds()), cy)
    }

    /// Tile of the CTB at `(cx, cy)`.
    pub fn tile_id_at(&self, cx: usize, cy: usize) -> (r: usize)
        requires
            self.wf(),
        ensures
            r == self.tile_of(cx as int, cy as int),
            r < self.cols * self.rows,
    {
        let row: usize = self.row_of(cy);
        let col: usize = self.col_of(cx);
        proof {
            lemma_bounds_count(self.col_bounds(), self.ctb_cols as int, 0);
            lemma_bounds_count(self.row_bounds(), self.ctb_rows as int, 0);
            assert(row * self.cols + self.cols <= self.cols * self.rows && 0 <= row * self.cols)
                by (nonlinear_arith)
                requires
                    0 <= row < self.rows,
            ;
            assert(self.cols * self.rows <= self.ctb_cols * self.ctb_rows) by (nonlinear_arith)
                requires
                    self.cols <= self.ctb_cols,
                    self.rows <= self.ctb_rows,
            ;
        }
        row * self.cols + col
    }

    /// Left CTB column of the tile that contains CTB column `cx`.
    pub fn tile_col_start(&self, cx: usize) -> (r: usize)
        requires
            self.wf(),
        ensures
            r == self.col_bounds()[tile_at(self.col_bounds(), cx as int)],
    {
        let c: usize = self.col_of(cx);
        self.col_bd[c]
    }

    /// Top CTB row of the tile that contains CTB row `cy`.
    pub fn tile_row_start(&self, cy: usize) -> (r: usize)
        requires
            self.wf(),
        ensures
            r == self.row_bounds()[tile_at(self.row_bounds(), cy as int)],
    {
        let c: usize = self.row_of(cy);
        self.row_bd[c]
    }
}

/// In tile-scan order a tile begins exactly at its top left CTB.
proof fn lemma_tile_start(g: TileGrid, rs: int)
    requires
        g.wf(),
        0 <= rs < g.pic(),
    ensures
        ({
            let ts = scan_of(g.col_bounds(), g.row_bounds(), rs);
            let starts = g.starts_tile(rs % g.ctb_cols as int, rs / g.ctb_cols as int);
            &&& ts == 0 ==> starts
            &&& 0 < ts < g.pic() ==> (starts <==> g.tile_id@[ts] != g.tile_id@[ts - 1])
        }),
{
    let cb = g.col_bounds();
    let rb = g.row_bounds();
    let c = cb.last();
    lemma_scan_range(cb, rb, rs);
    let x = rs % c;
    let y = rs / c;
    let ts = scan_of(cb, rb, rs);
    lemma_tile_at(cb, c, x);
    lemma_tile_at(rb, rb.last(), y);
    lemma_tile_offset(cb, rb, x, y);
    let tx = tile_at(cb, x);
    let ty = tile_at(rb, y);
    let w = size_at(cb, tx);
    let h = size_at(rb, ty);
    let o = (y - rb[ty]) * w + (x - cb[tx]);
    let base = rb[ty] * c + h * cb[tx];
    assert(ts == base + o);
    assert(0 <= base) by (nonlinear_arith)
        requires
            base == rb[ty] * c + h * cb[tx],
            0 <= rb[ty],
            0 <= c,
            0 <= h,
            0 <= cb[tx],
    ;
    assert(o == 0 <==> (x == cb[tx] && y == rb[ty])) by (nonlinear_arith)
        requires
            o == (y - rb[ty]) * w + (x - cb[tx]),
            x >= cb[tx],
            y >= rb[ty],
            w >= 1,
    ;
    if ts > 0 {
        let before = ts - 1;
        let q = scan_position(cb, rb, before);
        scan_covers_every_address(cb, rb, before);
        assert(g.tile_id@[ts] == g.tile_of(x, y));
        assert(g.tile_id@[before] == g.tile_of(q.0, q.1));
        if o > 0 {
            lemma_scan_parts(cb, rb, tx, ty, o - 1);
            lemma_tile_unique(cb, c, q.0, tx);
            lemma_tile_unique(rb, rb.last(), q.1, ty);
        } else {
            lemma_tile_at(cb, c, q.0);
            lemma_tile_at(rb, rb.last(), q.1);
            let sx = tile_at(cb, q.0);
            let sy = tile_at(rb, q.1);
            if sx == tx && sy == ty {
                lemma_tile_offset(cb, rb, q.0, q.1);
                assert(before >= base);
            }
            lemma_row_major(ty, tx, g.cols as int, g.rows as int);
            lemma_row_major(sy, sx, g.cols as int, g.rows as int);
        }
    }
}

/// Conversion to tile-scan order and back is the identity on the addresses of the picture, in both
/// directions.
pub proof fn address_tables_are_inverse(g: TileGrid, a: int)
    requires
        g.wf(),
        0 <= a < g.pic(),
    ensures
        g.ts_to_rs@[g.rs_to_ts@[a] as int] == a,
        g.rs_to_ts@[g.ts_to_rs@[a] as int] == a,
{
    lemma_scan_range(g.col_bounds(), g.row_bounds(), a);
    lemma_scan_onto(g.col_bounds(), g.row_bounds(), a);
    assert(g.rs_to_ts@[a] == scan_of(g.col_bounds(), g.row_bounds(), a));
    let p = scan_position(g.col_bounds(), g.row_bounds(), a);
    assert(g.ts_to_rs@[a] == p.1 * g.ctb_cols + p.0);
}

/// Each tile has exactly one start: a CTB of tile `(tx, ty)` starts it precisely when it is the one
/// at the tile's left and top boundary.
pub proof fn each_tile_has_one_start(g: TileGrid, tx: int, ty: int, x: int, y: int)
    requires
        g.wf(),
        0 <= tx < g.cols,
        0 <= ty < g.rows,
        0 <= x < g.ctb_cols,
        0 <= y < g.ctb_rows,
    ensures
        g.starts_tile(x, y) && g.tile_of(x, y) == ty * g.cols + tx <==> x == g.col_bounds()[tx]
            && y == g.row_bounds()[ty],
{
    let cb = g.col_bounds();
    let rb = g.row_bounds();
    lemma_tile_at(cb, g.ctb_cols as int, x);
    lemma_tile_at(rb, g.ctb_rows as int, y);
    lemma_row_major(ty, tx, g.cols as int, g.rows as int);
    lemma_row_major(tile_at(rb, y), tile_at(cb, x), g.cols as int, g.rows as int);
    assert(cb[tx] < cb[tx + 1] && rb[ty] < rb[ty + 1]);
    if x == cb[tx] {
        lemma_tile_unique(cb, g.ctb_cols as int, x, tx);
    }
    if y == rb[ty] {
        lemma_tile_unique(rb, g.ctb_rows as int, y, ty);
    }
}

/// A block lies in the tile whose bounds enclose it; what lies beyond the picture counts as in the
/// last tile.
pub proof fn tiles_enclose_their_blocks(b: Seq<int>, total: int, c: int, i: int)
    requires
        bounds_ok(b, total),
        0 <= i < b.len() - 1,
    ensures
        b[i] <= c < b[i + 1] ==> tile_at(b, c) == i,
        c >= total ==> tile_at(b, c) == b.len() - 2,
{
    lemma_enclosing_cell(b, total, c, i, b.len() - 2);
    if c >= total {
        assert(b[b.len() - 2] < b[b.len() - 1]);
    }
}

proof fn lemma_enclosing_cell(b: Seq<int>, total: int, c: int, i: int, n: int)
    requires
        bounds_ok(b, total),
        0 <= i <= n <= b.len() - 2,
    ensures
        b[i] <= c < b[i + 1] ==> cell(b, c, n) == i,
    decreases n,
{
    if i < n {
        if b[i] <= c < b[i + 1] {
            assert(b[i + 1] <= b[n]) by {
                if i + 1 < n {
                    assert(b[i + 1] < b[n]);
                }
            }
        }
        lemma_enclosing_cell(b, total, c, i, n - 1);
    } else if n > 0 {
        assert(b[i] == b[n]);
    }
}

/// The scan takes the tiles in rows, and the blocks of each tile in rows: of two blocks, the one in
/// the earlier tile comes first, and in the same tile the one further up or, in the same row,
/// further left.
pub proof fn scan_goes_tile_by_tile(
    cb: Seq<int>,
    rb: Seq<int>,
    x: int,
    y: int,
    u: int,
    v: int,
    tx: int,
    ty: int,
    tu: int,
    tv: int,
)
    requires
        bounds_ok(cb, cb.last()),
        bounds_ok(rb, rb.last()),
        0 <= tx < cb.len() - 1,
        0 <= tu < cb.len() - 1,
        0 <= ty < rb.len() - 1,
        0 <= tv < rb.len() - 1,
        cb[tx] <= x < cb[tx + 1],
        cb[tu] <= u < cb[tu + 1],
        rb[ty] <= y < rb[ty + 1],
        rb[tv] <= v < rb[tv + 1],
        ty < tv || (ty == tv && (tx < tu || (tx == tu && (y < v || (y == v && x < u))))),
    ensures
        scan_address(cb, rb, x, y) < scan_address(cb, rb, u, v),
{
    tiles_enclose_their_blocks(cb, cb.last(), x, tx);
    tiles_enclose_their_blocks(cb, cb.last(), u, tu);
    tiles_enclose_their_blocks(rb, rb.last(), y, ty);
    tiles_enclose_their_blocks(rb, rb.last(), v, tv);
    let total = cb.last();
    let (h, w) = (rb[ty + 1] - rb[ty], cb[tx + 1] - cb[tx]);
    let (g, q) = (rb[tv + 1] - rb[tv], cb[tu + 1] - cb[tu]);
    let (cx, nx, cu) = (cb[tx], cb[tx + 1], cb[tu]);
    let (ry, ny, rv) = (rb[ty], rb[ty + 1], rb[tv]);
    assert(cx >= 0 && cu >= 0 && ry >= 0 && rv >= 0) by {
        if tx > 0 {
            assert(cb[0] < cb[tx]);
        }
        if tu > 0 {
            assert(cb[0] < cb[tu]);
        }
        if ty > 0 {
            assert(rb[0] < rb[ty]);
        }
        if tv > 0 {
            assert(rb[0] < rb[tv]);
        }
    }
    assert(nx <= total) by {
        if tx + 1 < cb.len() - 1 {
            assert(cb[tx + 1] < cb[cb.len() - 1]);
        }
    }
    let a = ry * total + h * cx + (y - ry) * w + (x - cx);
    let b = rv * total + g * cu + (v - rv) * q + (u - cu);
    assert(a < ry * total + h * nx) by (nonlinear_arith)
        requires
            a == ry * total + h * cx + (y - ry) * w + (x - cx),
            0 <= y - ry < h,
            0 <= x - cx < w,
            nx == cx + w,
    ;
    assert(b >= rv * total + g * cu && g * cu >= 0) by (nonlinear_arith)
        requires
            b == rv * total + g * cu + (v - rv) * q + (u - cu),
            v >= rv,
            u >= cu,
            q > 0,
            g > 0,
            cu >= 0,
    ;
    if ty < tv {
        assert(ny <= rv) by {
            if ty + 1 < tv {
                assert(rb[ty + 1] < rb[tv]);
            }
        }
        assert(ry * total + h * nx <= rv * total) by (nonlinear_arith)
            requires
                h == ny - ry,
                h > 0,
                ny <= rv,
                nx <= total,
                total >= 0,
        ;
    } else if tx < tu {
        assert(nx <= cu) by {
            if tx + 1 < tu {
                assert(cb[tx + 1] < cb[tu]);
            }
        }
        assert(h * nx <= h * cu) by (nonlinear_arith)
            requires
                h > 0,
                nx <= cu,
        ;
    } else if y < v {
        assert((y - ry) * w + (x - cx) < (v - ry) * w + (u - cx)) by (nonlinear_arith)
            requires
                y < v,
                0 <= x - cx < w,
                0 <= u - cx,
        ;
    }
}

/// Uniform tiles share the blocks evenly, rounded down at each bound.
pub proof fn uniform_tiles_share_evenly(n: int, total: int, explicit: Seq<u32>, i: int)
    requires
        1 <= n <= total,
        0 <= i <= n,
    ensures
        tile_bounds(n, total, true, explicit).len() == n + 1,
        floor_over(tile_bounds(n, total, true, explicit)[i], i * total, n),
{
    let q = (i * total) / n;
    vstd::arithmetic::div_mod::lemma_fundamental_div_mod(i * total, n);
    assert(floor_over(q, i * total, n)) by (nonlinear_arith)
        requires
            i * total == n * q + (i * total) % n,
            0 <= (i * total) % n < n,
    ;
}

/// Tiles of given sizes lie side by side. Each has the size that was asked for, at least one block,
/// unless that leaves less than one block for each tile behind it; the last one takes the rest.
pub proof fn given_tiles_have_their_size(n: int, total: int, explicit: Seq<u32>, i: int)
    requires
        1 <= n <= total,
        0 <= i < n,
    ensures
        ({
            let b = tile_bounds(n, total, false, explicit);
            let size = b[i + 1] - b[i];
            let room = total - b[i] - (n - 1 - i);
            let asked = if i < explicit.len() && explicit[i] > 0 {
                explicit[i] as int
            } else {
                1
            };
            &&& b.len() == n + 1
            &&& b[0] == 0
            &&& b[n] == total
            &&& i < n - 1 && asked <= room ==> size == asked
            &&& i < n - 1 && asked > room ==> size == room
        }),
{
}

/// Tiles are numbered in rows.
pub proof fn tiles_are_numbered_in_rows(g: TileGrid, x: int, y: int, tx: int, ty: int)
    requires
        g.wf(),
        0 <= tx < g.cols,
        0 <= ty < g.rows,
        g.col_bounds()[tx] <= x < g.col_bounds()[tx + 1],
        g.row_bounds()[ty] <= y < g.row_bounds()[ty + 1],
    ensures
        g.tile_of(x, y) == ty * g.cols + tx,
        tile_at(g.col_bounds(), x) == tx,
        tile_at(g.row_bounds(), y) == ty,
        g.starts_tile(x, y) <==> x == g.col_bounds()[tx] && y == g.row_bounds()[ty],
        g.pic() == g.ctb_cols * g.ctb_rows,
        scan_of(g.col_bounds(), g.row_bounds(), y * g.ctb_cols + x) == scan_address(
            g.col_bounds(),
            g.row_bounds(),
            x,
            y,
        ),
{
    let (cb, rb) = (g.col_bounds(), g.row_bounds());
    tiles_enclose_their_blocks(cb, g.ctb_cols as int, x, tx);
    tiles_enclose_their_blocks(rb, g.ctb_rows as int, y, ty);
    if tx > 0 {
        assert(cb[0] < cb[tx]);
    }
    if ty > 0 {
        assert(rb[0] < rb[ty]);
    }
    if tx + 1 < g.cols {
        assert(cb[tx + 1] < cb[g.cols as int]);
    }
    lemma_row_major(y, x, g.ctb_cols as int, y + 1);
}

/// Grid bounds are the starts of the tiles and the end of the picture.
pub proof fn bounds_are_starts_and_the_end(starts: Seq<usize>, total: int, i: int)
    requires
        0 <= i < starts.len(),
    ensures
        bounds_of(starts, total).len() == starts.len() + 1,
        bounds_of(starts, total)[i] == starts[i],
        bounds_of(starts, total)[starts.len() as int] == total,
        size_at(bounds_of(starts, total), i) == bounds_of(starts, total)[i + 1] - starts[i],
{
}

} // verus!
