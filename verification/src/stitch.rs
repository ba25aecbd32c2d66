//! Placing tiles into the bands of a grid image.
use vstd::prelude::*;
use crate::arith::{lemma_row_major, min_int};
use crate::sample::Sample;

verus! {

/// A plane that tiles are taken from: `pw` by `ph` samples of which only the first `usable` count,
/// with the visible part starting at `(left, top)`.
pub struct TileSource<T> {
    pub plane: Seq<T>,
    pub usable: int,
    pub pw: int,
    pub ph: int,
    pub left: int,
    pub top: int,
}

impl<T: Sample> TileSource<T> {
    /// First sample of the row that shows at `y`; rows below the plane repeat its last row.
    pub open spec fn row_start(self, y: int) -> int {
        min_int(min_int(self.top, self.ph - 1) + y, self.ph - 1) * self.pw
    }

    /// The sample that shows at `(x, y)`, if its row has any. Beyond the end of a row its last
    /// sample is repeated.
    pub open spec fn at(self, x: int, y: int) -> Option<T> {
        let base = self.row_start(y);
        if base >= self.usable {
            None
        } else {
            let have = min_int(self.usable - base, self.pw);
            let x0 = min_int(min_int(self.left, self.pw - 1), have - 1);
            Some(self.plane[base + min_int(x0 + x, have - 1)])
        }
    }
}

/// The band with a tile written to columns `x0` to `x0 + w` of its first `h` rows. Where the tile
/// has no samples the band stays as it is.
pub open spec fn placed<T: Sample>(
    band: Seq<T>,
    pitch: int,
    x0: int,
    w: int,
    h: int,
    src: TileSource<T>,
) -> Seq<T> {
    Seq::new(
        band.len(),
        |i: int|
            {
                let x = i % pitch;
                let y = i / pitch;
                if 0 <= y < h && x0 <= x < x0 + w {
                    match src.at(x - x0, y) {
                        Some(v) => v,
                        None => band[i],
                    }
                } else {
                    band[i]
                }
            },
    )
}

/// Smaller of a sum and a bound, without computing the sum where it would exceed the bound.
fn min_sum(a: usize, b: usize, bound: usize) -> (r: usize)
    requires
        a <= bound,
    ensures
        r == min_int(a + b, bound as int),
{
    if b < bound - a {
        a + b
    } else {
        bound
    }
}

fn smaller(a: usize, b: usize) -> (r: usize)
    ensures
        r == min_int(a as int, b as int),
{
    if a < b {
        a
    } else {
        b
    }
}

/// Writes a tile into a band.
pub fn place_plane<T: Sample>(
    band: &mut [T],
    pitch: usize,
    x0: usize,
    w: usize,
    h: usize,
    plane: &[T],
    usable: usize,
    pw: usize,
    ph: usize,
    left: usize,
    top: usize,
)
    requires
        x0 + w <= pitch,
        h * pitch <= old(band)@.len(),
        usable <= plane@.len(),
        pw > 0,
        ph > 0,
    ensures
        final(band)@ == placed(
            old(band)@,
            pitch as int,
            x0 as int,
            w as int,
            h as int,
            TileSource {
                plane: plane@,
                usable: usable as int,
                pw: pw as int,
                ph: ph as int,
                left: left as int,
                top: top as int,
            },
        ),
{
    let ghost src = TileSource {
        plane: plane@,
        usable: usable as int,
        pw: pw as int,
        ph: ph as int,
        left: left as int,
        top: top as int,
    };
    let ghost before = band@;
    let ghost full = placed(before, pitch as int, x0 as int, w as int, h as int, src);
    let band_len: usize = band.len();
    if w == 0 || h == 0 {
        assert(band@ =~= full);
        return;
    }
    let crop_top: usize = smaller(top, ph - 1);
    let crop_left: usize = smaller(left, pw - 1);
    let mut y: usize = 0;
    while y < h
        invariant
            0 < w,
            x0 + w <= pitch,
            h * pitch <= band_len,
            band_len == before.len(),
            usable <= plane@.len(),
            pw > 0,
            ph > 0,
            src == (TileSource {
                plane: plane@,
                usable: usable as int,
                pw: pw as int,
                ph: ph as int,
                left: left as int,
                top: top as int,
            }),
            full == placed(before, pitch as int, x0 as int, w as int, h as int, src),
            crop_top == min_int(top as int, ph - 1),
            crop_left == min_int(left as int, pw - 1),
            y <= h,
            band@.len() == before.len(),
            forall|i: int|
                0 <= i < before.len() ==> (#[trigger] band@[i]) == if i / (pitch as int) < y {
                    full[i]
                } else {
                    before[i]
                },
        decreases h - y,
    {
        let src_y: usize = min_sum(crop_top, y, ph - 1);
        let base: Option<usize> = src_y.checked_mul(pw);
        let usable_row: bool = match base {
            Some(b) => b < usable,
            None => false,
        };
        if usable_row {
            let base: usize = base.unwrap();
            assert(base == src.row_start(y as int));
            let have: usize = smaller(usable - base, pw);
            let start: usize = smaller(crop_left, have - 1);
            let mut x: usize = 0;
            while x < w
                invariant
                    0 < w,
                    x0 + w <= pitch,
                    h * pitch <= band_len,
                    band_len == before.len(),
                    usable <= plane@.len(),
                    pw > 0,
                    ph > 0,
                    src == (TileSource {
                        plane: plane@,
                        usable: usable as int,
                        pw: pw as int,
                        ph: ph as int,
                        left: left as int,
                        top: top as int,
                    }),
                    full == placed(before, pitch as int, x0 as int, w as int, h as int, src),
                    crop_left == min_int(left as int, pw - 1),
                    y < h,
                    x <= w,
                    base == src.row_start(y as int),
                    base < usable,
                    have == min_int(usable - base, pw as int),
                    start == min_int(crop_left as int, have - 1),
                    have >= 1,
                    band@.len() == before.len(),
                    forall|i: int|
                        0 <= i < before.len() ==> (#[trigger] band@[i]) == if i / (pitch as int) < y
                            || (i / (pitch as int) == y && i % (pitch as int) < x0 + x) {
                            full[i]
                        } else {
                            before[i]
                        },
                decreases w - x,
            {
                let v: T = plane[base + min_sum(start, x, have - 1)];
                proof {
                    lemma_row_major(y as int, x0 + x, pitch as int, h as int);
                    assert(y * pitch >= 0) by (nonlinear_arith)
                        requires
                            y >= 0,
                            pitch >= 0,
                    ;
                    let i0 = y * pitch + x0 + x;
                    assert(src.at(x as int, y as int) == Some(v));
                    assert(full[i0] == v);
                    assert forall|i: int|
                        #![trigger before[i]]
                        0 <= i < before.len() && i / (pitch as int) == y && i % (pitch as int) == x0
                            + x implies i == i0 by {
                        vstd::arithmetic::div_mod::lemma_fundamental_div_mod(i, pitch as int);
                        assert(pitch * y == y * pitch) by (nonlinear_arith);
                    }
                }
                band[y * pitch + x0 + x] = v;
                x = x + 1;
            }
        } else {
            proof {
                match base {
                    Some(b) => {
                        assert(b == src.row_start(y as int));
                    },
                    None => {
                        assert(src.row_start(y as int) > usize::MAX);
                    },
                }
                assert(forall|x: int| (#[trigger] src.at(x, y as int)) is None);
            }
        }
        y = y + 1;
    }
    proof {
        assert forall|i: int| 0 <= i < before.len() implies band@[i] == full[i] by {
            if !(i / (pitch as int) < h) {
                assert(full[i] == before[i]);
            }
        }
        assert(band@ =~= full);
    }
}

/// Sample `(x, y)` of a tile is sample `(left + x, top + y)` of its plane. Beyond the plane's right
/// and lower border the last sample of the row and the last row repeat.
pub proof fn tiles_show_their_plane<T: Sample>(
    src: TileSource<T>,
    x: int,
    y: int,
    px: int,
    py: int,
)
    requires
        0 <= x,
        0 <= y,
        0 <= src.left < src.pw,
        0 <= src.top < src.ph,
        src.pw * src.ph <= src.usable,
        src.left + x < src.pw ==> px == src.left + x,
        src.left + x >= src.pw ==> px == src.pw - 1,
        src.top + y < src.ph ==> py == src.top + y,
        src.top + y >= src.ph ==> py == src.ph - 1,
    ensures
        src.at(x, y) == Some(src.plane[py * src.pw + px]),
{
    assert(py * src.pw + src.pw <= src.usable) by (nonlinear_arith)
        requires
            0 <= py < src.ph,
            0 < src.pw,
            src.pw * src.ph <= src.usable,
    ;
}

/// A row that starts behind the usable samples shows nothing, and one that ends behind them repeats
/// the last usable sample.
pub proof fn tiles_show_only_usable_samples<T: Sample>(src: TileSource<T>, x: int, y: int, py: int)
    requires
        0 <= x,
        0 <= y,
        0 <= src.left < src.pw,
        0 <= src.top < src.ph,
        src.top + y < src.ph ==> py == src.top + y,
        src.top + y >= src.ph ==> py == src.ph - 1,
    ensures
        py * src.pw >= src.usable ==> src.at(x, y) is None,
        py * src.pw < src.usable < py * src.pw + src.pw && py * src.pw + src.left + x
            >= src.usable ==> src.at(x, y) == Some(src.plane[src.usable - 1]),
        py * src.pw + src.left + x < src.usable && src.left + x < src.pw ==> src.at(x, y) == Some(
            src.plane[py * src.pw + src.left + x],
        ),
{
}

/// A tile is placed at column `x0` of a band of rows: sample `(x, y)` of the band, at `y * pitch +
/// x`, shows sample `(x - x0, y)` of the tile, and samples beside or below it stay.
pub proof fn tiles_are_placed_side_by_side<T: Sample>(
    band: Seq<T>,
    pitch: int,
    x0: int,
    w: int,
    h: int,
    src: TileSource<T>,
    x: int,
    y: int,
)
    requires
        0 <= x < pitch,
        0 <= y,
        y * pitch + x < band.len(),
    ensures
        placed(band, pitch, x0, w, h, src).len() == band.len(),
        placed(band, pitch, x0, w, h, src)[y * pitch + x] == (if x0 <= x < x0 + w && y < h
            && src.at(x - x0, y) is Some {
            src.at(x - x0, y)->0
        } else {
            band[y * pitch + x]
        }),
{
    lemma_row_major(y, x, pitch, y + 1);
}

} // verus!
