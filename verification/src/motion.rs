//! Motion vector prediction: the merge candidate list and the two motion vector predictors of a
//! prediction unit, from spatial neighbours and the collocated picture.
use vstd::prelude::*;
use crate::arith::{
    abs_int, asr, clip3, clip3_i32, floor_over, lemma_asr_bounds, lemma_asr_is_floor,
    lemma_asr_nearest, lemma_asr_shrinks, lemma_p2_values, max_int, min_int, nearest, p2, shr_i32,
    shr_usize,
};

verus! {

/// A motion vector in quarter samples.
#[derive(Clone, Copy, Debug, PartialEq, Eq, Structural)]
pub struct Mv {
    pub x: i16,
    pub y: i16,
}

impl Mv {
    pub fn new(x: i16, y: i16) -> (r: Mv)
        ensures
            r == (Mv { x, y }),
    {
        Mv { x, y }
    }

    pub open spec fn zero() -> Mv {
        Mv { x: 0, y: 0 }
    }
}

impl Default for Mv {
    fn default() -> (r: Mv)
        ensures
            r == Mv::zero(),
    {
        Mv { x: 0, y: 0 }
    }
}

/// Which reference lists a prediction uses.
#[derive(Clone, Copy, Debug, PartialEq, Eq, Structural, Default)]
pub struct PredFlags {
    pub l0: bool,
    pub l1: bool,
}

/// Motion of a decoded prediction unit.
#[derive(Clone, Copy, Debug, Default)]
pub struct MotionInfo {
    pub pred: PredFlags,
    pub mv: [Mv; 2],
    pub ref_idx: [i8; 2],
    pub ref_poc: [i32; 2],
    pub ref_lt: [bool; 2],
    pub is_intra: bool,
}

impl MotionInfo {
    pub open spec fn uses(self, l: int) -> bool {
        (l == 0 && self.pred.l0) || (l == 1 && self.pred.l1)
    }

    fn pred_uses(&self, l: usize) -> (r: bool)
        ensures
            r == self.uses(l as int),
    {
        (l == 0 && self.pred.l0) || (l == 1 && self.pred.l1)
    }
}

/// An entry of a reference picture list.
#[derive(Clone, Copy, Debug, PartialEq, Eq, Structural)]
pub struct RefEntry {
    pub _dpb_index: usize,
    pub poc: i32,
    pub long_term: bool,
}

/// The reciprocal of a clipped distance in 1/16384, rounded to nearest and towards zero.
pub open spec fn inverse_distance(td: int) -> int {
    let m = (16384 + abs_int(td) / 2) / abs_int(td);
    if td < 0 {
        -m
    } else {
        m
    }
}

/// The factor, in 1/256, between two picture distances.
pub open spec fn scale_factor(col_dist: int, cur_dist: int) -> int {
    let td = clip3(-128, 127, col_dist);
    let tb = clip3(-128, 127, cur_dist);
    clip3(-4096, 4095, asr(tb * inverse_distance(td) + 32, 6))
}

/// A vector component scaled by a factor in 1/256, rounded to the nearest, halves toward zero.
pub open spec fn scale_component(factor: int, c: int) -> int {
    let p = factor * c;
    let m = asr(abs_int(p) + 127, 8);
    clip3(
        -32768,
        32767,
        if p < 0 {
            -m
        } else {
            m
        },
    )
}

/// A vector that points over `col_dist` pictures, made to point over `cur_dist`.
pub open spec fn scaled(mv: Mv, col_dist: int, cur_dist: int) -> Mv {
    if col_dist == 0 {
        mv
    } else {
        let f = scale_factor(col_dist, cur_dist);
        Mv { x: scale_component(f, mv.x as int) as i16, y: scale_component(f, mv.y as int) as i16 }
    }
}

fn scale_component_of(factor: i32, c: i16) -> (r: i16)
    requires
        -4096 <= factor <= 4095,
    ensures
        r == scale_component(factor as int, c as int),
{
    proof {
        assert(-134217728 <= factor * c <= 134217728) by (nonlinear_arith)
            requires
                -4096 <= factor <= 4095,
                -32768 <= c <= 32767,
        ;
    }
    let p: i32 = factor * c as i32;
    let magnitude: i32 = if p < 0 {
        -p
    } else {
        p
    };
    let m: i32 = shr_i32(magnitude + 127, 8);
    proof {
        lemma_asr_shrinks(magnitude + 127, 8);
    }
    let v: i32 = if p < 0 {
        -m
    } else {
        m
    };
    clip3_i32(-32768, 32767, v) as i16
}

/// Scales a motion vector by the ratio of two picture distances.
pub fn scale_mv(mv: Mv, col_dist: i32, cur_dist: i32) -> (r: Mv)
    ensures
        r == scaled(mv, col_dist as int, cur_dist as int),
{
    let td: i32 = clip3_i32(-128, 127, col_dist);
    let tb: i32 = clip3_i32(-128, 127, cur_dist);
    if td == 0 {
        return mv;
    }
    let a: i32 = if td < 0 {
        -td
    } else {
        td
    };
    let m: i32 = (16384 + a / 2) / a;
    proof {
        assert(0 <= m <= 16448) by (nonlinear_arith)
            requires
                m == (16384 + a / 2) / a as int,
                1 <= a <= 128,
        ;
    }
    let tx: i32 = if td < 0 {
        -m
    } else {
        m
    };
    proof {
        assert(-2105344 <= tb * tx <= 2105344) by (nonlinear_arith)
            requires
                -128 <= tb <= 127,
                -16448 <= tx <= 16448,
        ;
    }
    let factor: i32 = clip3_i32(-4096, 4095, shr_i32(tb * tx + 32, 6));
    Mv { x: scale_component_of(factor, mv.x), y: scale_component_of(factor, mv.y) }
}

/// Scaling by a factor in 1/256 close to one keeps a component: always by one itself, else where
/// the rounding or the clipping hides the difference.
pub open spec fn keeps(factor: int, c: int) -> bool {
    ||| factor == 256
    ||| factor == 255 && abs_int(c) <= 127
    ||| factor == 257 && (abs_int(c) <= 128 || c == 32767 || c == -32768)
}

/// Over equal distances the factor is one up to a 256th, and exactly one over at most 64 pictures
/// or beyond the clipping range. Vectors keep their length exactly where that factor keeps both
/// components.
pub proof fn scaling_over_equal_distance_is_identity(mv: Mv, d: int)
    requires
        d != 0,
    ensures
        255 <= scale_factor(d, d) <= 257,
        -64 <= d <= 64 || d <= -128 || d >= 127 ==> scale_factor(d, d) == 256,
        scaled(mv, d, d) == mv <==> keeps(scale_factor(d, d), mv.x as int) && keeps(
            scale_factor(d, d),
            mv.y as int,
        ),
{
    let td = clip3(-128, 127, d);
    let a = abs_int(td);
    let m = (16384 + a / 2) / a;
    vstd::arithmetic::div_mod::lemma_fundamental_div_mod(16384 + a / 2, a);
    let t = inverse_distance(td);
    assert(td * t == a * m) by (nonlinear_arith)
        requires
            (td < 0 && a == -td && t == -m) || (td >= 0 && a == td && t == m),
    ;
    if a == 127 {
        assert(m == 129);
    } else if a == 128 {
        assert(m == 128);
    } else if a == 64 {
        assert(m == 256);
    }
    lemma_p2_values();
    let f = if td * t + 32 < 16384 {
        255
    } else if td * t + 32 < 16448 {
        256
    } else {
        257int
    };
    lemma_asr_bounds(td * t + 32, 6, f, f + 1);
    assert(scale_factor(d, d) == f);
    lemma_near_unit_scale(f, mv.x as int);
    lemma_near_unit_scale(f, mv.y as int);
}

proof fn lemma_near_unit_scale(factor: int, c: int)
    requires
        255 <= factor <= 257,
        -32768 <= c <= 32767,
    ensures
        scale_component(factor, c) == c <==> keeps(factor, c),
{
    lemma_p2_values();
    let n = abs_int(c);
    let k = if factor == 256 {
        n
    } else if factor == 257 {
        n + (n + 127) / 256
    } else {
        n - (n + 128) / 256
    };
    assert(abs_int(factor * c) == factor * n) by (nonlinear_arith)
        requires
            n == abs_int(c),
            factor > 0,
    ;
    assert(k * 256 <= factor * n + 127 < (k + 1) * 256);
    lemma_asr_bounds(factor * n + 127, 8, k, k + 1);
    assert(factor * c < 0 <==> c < 0) by (nonlinear_arith)
        requires
            factor > 0,
    ;
}

/// What prediction of a unit may ask about its surroundings.
pub trait Neighbors {
    /// Motion stored at luma position `(x, y)`, whether or not it may be used.
    spec fn motion(&self, x: int, y: int) -> Option<MotionInfo>;

    /// A position outside the current coding block may be used: it precedes it in decoding order,
    /// in the same slice and tile.
    spec fn reachable(&self, x: int, y: int) -> bool;

    /// Collocated motion at `(x, y)` for a list, scaled to point at `ref_poc`.
    spec fn collocated(&self, x: int, y: int, list: int, ref_poc: int, cur_poc: int) -> Option<Mv>;

    /// Picture order count of the current picture.
    spec fn poc(&self) -> int;

    /// Base-2 logarithm of the coding-tree block size.
    spec fn ctb_bits(&self) -> int;

    fn motion_at(&self, x: isize, y: isize) -> (r: Option<MotionInfo>)
        ensures
            r == self.motion(x as int, y as int),
    ;

    fn available(&self, x: isize, y: isize) -> (r: bool)
        ensures
            r == self.reachable(x as int, y as int),
    ;

    fn temporal(&self, x: usize, y: usize, list: usize, ref_poc: i32, cur_poc: i32) -> (r: Option<
        Mv,
    >)
        ensures
            r == self.collocated(
                x as int,
                y as int,
                list as int,
                ref_poc as int,
                cur_poc as int,
            ),
    ;

    fn cur_poc(&self) -> (r: i32)
        ensures
            r == self.poc(),
    ;

    fn ctb_log2(&self) -> (r: u32)
        ensures
            r == self.ctb_bits(),
    ;
}

/// Surroundings that answer alike at every position.
pub struct UniformNeighbors {
    pub motion: Option<MotionInfo>,
    pub available: bool,
    /// Collocated motion of list 0 and of list 1.
    pub collocated: [Option<Mv>; 2],
    pub cur_poc: i32,
    pub ctb_log2: u32,
}

impl Neighbors for UniformNeighbors {
    open spec fn motion(&self, x: int, y: int) -> Option<MotionInfo> {
        self.motion
    }

    open spec fn reachable(&self, x: int, y: int) -> bool {
        self.available
    }

    open spec fn collocated(
        &self,
        x: int,
        y: int,
        list: int,
        ref_poc: int,
        cur_poc: int,
    ) -> Option<Mv> {
        if 0 <= list < 2 {
            self.collocated@[list]
        } else {
            None
        }
    }

    open spec fn poc(&self) -> int {
        self.cur_poc as int
    }

    open spec fn ctb_bits(&self) -> int {
        self.ctb_log2 as int
    }

    fn motion_at(&self, x: isize, y: isize) -> Option<MotionInfo> {
        self.motion
    }

    fn available(&self, x: isize, y: isize) -> bool {
        self.available
    }

    fn temporal(&self, x: usize, y: usize, list: usize, ref_poc: i32, cur_poc: i32) -> Option<Mv> {
        if list < 2 {
            self.collocated[list]
        } else {
            None
        }
    }

    fn cur_poc(&self) -> i32 {
        self.cur_poc
    }

    fn ctb_log2(&self) -> u32 {
        self.ctb_log2
    }
}

/// A merge candidate.
#[derive(Clone, Copy, Debug, Default)]
pub struct MergeCand {
    pub pred: PredFlags,
    pub mv: [Mv; 2],
    pub ref_idx: [i8; 2],
}

/// What a merge candidate says: the lists in use, their vectors and reference indices.
pub struct Cand {
    pub pred: PredFlags,
    pub mv0: Mv,
    pub mv1: Mv,
    pub idx0: int,
    pub idx1: int,
}

impl View for MergeCand {
    type V = Cand;

    open spec fn view(&self) -> Cand {
        Cand {
            pred: self.pred,
            mv0: self.mv@[0],
            mv1: self.mv@[1],
            idx0: self.ref_idx@[0] as int,
            idx1: self.ref_idx@[1] as int,
        }
    }
}

/// The candidate that an optional merge candidate stands for.
pub open spec fn cand_view(c: Option<MergeCand>) -> Option<Cand> {
    match c {
        Some(c) => Some(c@),
        None => None,
    }
}

/// The candidates of a list.
pub open spec fn cand_views(s: Seq<MergeCand>) -> Seq<Cand> {
    Seq::new(s.len(), |i: int| s[i]@)
}

impl MotionInfo {
    pub open spec fn cand(self) -> Cand {
        Cand {
            pred: self.pred,
            mv0: self.mv@[0],
            mv1: self.mv@[1],
            idx0: self.ref_idx@[0] as int,
            idx1: self.ref_idx@[1] as int,
        }
    }
}

impl MergeCand {
    fn from_motion(m: &MotionInfo) -> (r: MergeCand)
        ensures
            r@ == m.cand(),
    {
        MergeCand { pred: m.pred, mv: m.mv, ref_idx: m.ref_idx }
    }

    fn same_motion(&self, o: &MergeCand) -> (r: bool)
        ensures
            r == (self@ == o@),
    {
        self.pred == o.pred && self.mv[0] == o.mv[0] && self.mv[1] == o.mv[1] && self.ref_idx[0]
            == o.ref_idx[0] && self.ref_idx[1] == o.ref_idx[1]
    }
}

/// A prediction unit and the coding block that contains it.
pub struct PuGeom {
    pub x: usize,
    pub y: usize,
    pub w: usize,
    pub h: usize,
    pub cu_x: usize,
    pub cu_y: usize,
    /// The slice may predict from two lists.
    pub is_b: bool,
    /// Number of the unit in its coding block.
    pub part_idx: usize,
    pub cu_w: usize,
    pub cu_h: usize,
    /// The current picture is among the references, as the last entry of list 0.
    pub curr_pic_ref: bool,
    /// Base-2 logarithm of the parallel merge estimation region.
    pub par_mrg_level: u32,
}

impl PuGeom {
    /// All positions around the unit can be numbered, and so can merge estimation regions.
    pub open spec fn wf(self) -> bool {
        &&& self.x + self.w < isize::MAX
        &&& self.y + self.h < isize::MAX
        &&& self.par_mrg_level < 32
    }

    /// `(x, y)` lies in the coding block of the unit.
    pub open spec fn in_cu(self, x: int, y: int) -> bool {
        &&& self.cu_x <= x < self.cu_x + self.cu_w
        &&& self.cu_y <= y < self.cu_y + self.cu_h
    }

    /// `(x, y)` lies in the quarter of a coding block split in four that follows the second unit in
    /// decoding order although it is on its left.
    pub open spec fn in_later_quarter(self, x: int, y: int) -> bool {
        &&& 2 * self.w == self.cu_w
        &&& 2 * self.h == self.cu_h
        &&& self.part_idx == 1
        &&& self.cu_y + self.h <= y
        &&& x < self.cu_x + self.w
    }
}

/// Motion at `(x, y)` may be used for the unit.
pub open spec fn usable<N: Neighbors>(nb: &N, pu: PuGeom, x: int, y: int) -> bool {
    if x < 0 || y < 0 {
        false
    } else if !pu.in_cu(x, y) {
        nb.reachable(x, y)
    } else {
        !pu.in_later_quarter(x, y)
    }
}

/// Availability of a neighbouring position. Units of the same coding block count as available
/// before their samples are reconstructed.
pub fn prediction_block_available<N: Neighbors>(nb: &N, pu: &PuGeom, px: isize, py: isize) -> (r:
    bool)
    requires
        pu.wf(),
    ensures
        r == usable(nb, *pu, px as int, py as int),
{
    if px < 0 || py < 0 {
        return false;
    }
    let (x, y): (usize, usize) = (px as usize, py as usize);
    let same_cb: bool = x >= pu.cu_x && y >= pu.cu_y && x - pu.cu_x < pu.cu_w && y - pu.cu_y
        < pu.cu_h;
    if !same_cb {
        return nb.available(px, py);
    }
    !(pu.w <= pu.cu_w && pu.cu_w - pu.w == pu.w && pu.h <= pu.cu_h && pu.cu_h - pu.h == pu.h
        && pu.part_idx == 1 && pu.h <= y - pu.cu_y && pu.w > x - pu.cu_x)
}

/// The five spatial neighbours: left below, left, right above, above, and the corner.
#[derive(Clone, Copy, PartialEq, Eq, Structural)]
pub enum SpatialPos {
    A0,
    A1,
    B0,
    B1,
    B2,
}

/// The candidate would merge the second unit of a split coding block with the first, undoing the
/// split.
pub open spec fn undoes_split(pu: PuGeom, pos: SpatialPos) -> bool {
    &&& pu.part_idx == 1
    &&& (pos == SpatialPos::A1 && pu.w < pu.cu_w && pu.h == pu.cu_h) || (pos == SpatialPos::B1
        && pu.h < pu.cu_h && pu.w == pu.cu_w)
}

/// `(x, y)` lies in the same merge estimation region as the unit.
pub open spec fn same_region(pu: PuGeom, x: int, y: int) -> bool {
    &&& 0 <= x
    &&& 0 <= y
    &&& asr(pu.x as int, pu.par_mrg_level as int) == asr(x, pu.par_mrg_level as int)
    &&& asr(pu.y as int, pu.par_mrg_level as int) == asr(y, pu.par_mrg_level as int)
}

pub open spec fn spatial_cand<N: Neighbors>(
    nb: &N,
    pu: PuGeom,
    x: int,
    y: int,
    pos: SpatialPos,
) -> Option<Cand> {
    if undoes_split(pu, pos) || same_region(pu, x, y) || !usable(nb, pu, x, y) {
        None
    } else {
        match nb.motion(x, y) {
            Some(m) => if m.is_intra {
                None
            } else {
                Some(m.cand())
            },
            None => None,
        }
    }
}

/// The merge candidate at a spatial neighbour, if there is one.
pub fn spatial<N: Neighbors>(nb: &N, px: isize, py: isize, pu: &PuGeom, pos: SpatialPos) -> (r:
    Option<MergeCand>)
    requires
        pu.wf(),
    ensures
        cand_view(r) == spatial_cand(nb, *pu, px as int, py as int, pos),
{
    if pu.part_idx == 1 {
        let vertical_split: bool = pu.w < pu.cu_w && pu.h == pu.cu_h;
        let horizontal_split: bool = pu.h < pu.cu_h && pu.w == pu.cu_w;
        if pos == SpatialPos::A1 && vertical_split {
            return None;
        }
        if pos == SpatialPos::B1 && horizontal_split {
            return None;
        }
    }
    let lvl: u32 = pu.par_mrg_level;
    if px >= 0 && py >= 0 && shr_usize(pu.x, lvl) == shr_usize(px as usize, lvl) && shr_usize(
        pu.y,
        lvl,
    ) == shr_usize(py as usize, lvl) {
        return None;
    }
    if !prediction_block_available(nb, pu, px, py) {
        return None;
    }
    match nb.motion_at(px, py) {
        None => None,
        Some(m) => if m.is_intra {
            None
        } else {
            Some(MergeCand::from_motion(&m))
        },
    }
}

/// Collocated motion for the unit in a list: below and right of it if that stays in the row of
/// coding-tree blocks, else at its centre.
pub open spec fn temporal_mv<N: Neighbors>(
    nb: &N,
    pu: PuGeom,
    list: int,
    ref_poc: int,
) -> Option<Mv> {
    let y1 = pu.y + pu.h;
    let below = if asr(y1, nb.ctb_bits()) == asr(pu.y as int, nb.ctb_bits()) {
        nb.collocated(pu.x + pu.w, y1, list, ref_poc, nb.poc())
    } else {
        None
    };
    match below {
        Some(mv) => Some(mv),
        None => nb.collocated(
            pu.x + pu.w as int / 2,
            pu.y + pu.h as int / 2,
            list,
            ref_poc,
            nb.poc(),
        ),
    }
}

fn temporal_mv_of<N: Neighbors>(nb: &N, pu: &PuGeom, list: usize, ref_poc: i32) -> (r: Option<Mv>)
    requires
        pu.wf(),
        nb.ctb_bits() < 32,
    ensures
        r == temporal_mv(nb, *pu, list as int, ref_poc as int),
{
    let cur_poc: i32 = nb.cur_poc();
    let bits: u32 = nb.ctb_log2();
    let y1: usize = pu.y + pu.h;
    if shr_usize(y1, bits) == shr_usize(pu.y, bits) {
        let below: Option<Mv> = nb.temporal(pu.x + pu.w, y1, list, ref_poc, cur_poc);
        if below.is_some() {
            return below;
        }
    }
    nb.temporal(pu.x + pu.w / 2, pu.y + pu.h / 2, list, ref_poc, cur_poc)
}

pub open spec fn first_poc(list: Seq<RefEntry>, cur_poc: int) -> int {
    if list.len() > 0 {
        list[0].poc as int
    } else {
        cur_poc
    }
}

/// The temporal candidate made of the collocated vectors of both lists: the lists that have one, at
/// reference index 0.
pub open spec fn temporal_of(mv0: Option<Mv>, mv1: Option<Mv>) -> Option<Cand> {
    if mv0 is None && mv1 is None {
        None
    } else {
        Some(
            Cand {
                pred: PredFlags { l0: mv0 is Some, l1: mv1 is Some },
                mv0: match mv0 {
                    Some(v) => v,
                    None => Mv::zero(),
                },
                mv1: match mv1 {
                    Some(v) => v,
                    None => Mv::zero(),
                },
                idx0: if mv0 is Some {
                    0
                } else {
                    -1
                },
                idx1: if mv1 is Some {
                    0
                } else {
                    -1
                },
            },
        )
    }
}

/// The collocated vector of list 1, which only bi-predictive slices use.
pub open spec fn temporal_mv1<N: Neighbors>(nb: &N, pu: PuGeom, list1: Seq<RefEntry>) -> Option<Mv> {
    if pu.is_b {
        temporal_mv(nb, pu, 1, first_poc(list1, nb.poc()))
    } else {
        None
    }
}

pub open spec fn temporal_cand<N: Neighbors>(
    nb: &N,
    pu: PuGeom,
    list0: Seq<RefEntry>,
    list1: Seq<RefEntry>,
) -> Option<Cand> {
    temporal_of(
        temporal_mv(nb, pu, 0, first_poc(list0, nb.poc())),
        temporal_mv1(nb, pu, list1),
    )
}

/// The temporal merge candidate.
pub fn temporal_merge<N: Neighbors>(nb: &N, pu: &PuGeom, list0: &[RefEntry], list1: &[RefEntry]) -> (r:
    Option<MergeCand>)
    requires
        pu.wf(),
        nb.ctb_bits() < 32,
    ensures
        cand_view(r) == temporal_cand(nb, *pu, list0@, list1@),
{
    let cur_poc: i32 = nb.cur_poc();
    let ref0_poc: i32 = if list0.len() > 0 {
        list0[0].poc
    } else {
        cur_poc
    };
    let mv0: Option<Mv> = temporal_mv_of(nb, pu, 0, ref0_poc);
    let mv1: Option<Mv> = if pu.is_b {
        let ref1_poc: i32 = if list1.len() > 0 {
            list1[0].poc
        } else {
            cur_poc
        };
        temporal_mv_of(nb, pu, 1, ref1_poc)
    } else {
        None
    };
    if mv0.is_none() && mv1.is_none() {
        return None;
    }
    let (l0, v0, i0): (bool, Mv, i8) = match mv0 {
        Some(v) => (true, v, 0),
        None => (false, Mv::default(), -1),
    };
    let (l1, v1, i1): (bool, Mv, i8) = match mv1 {
        Some(v) => (true, v, 0),
        None => (false, Mv::default(), -1),
    };
    Some(MergeCand { pred: PredFlags { l0, l1 }, mv: [v0, v1], ref_idx: [i0, i1] })
}

/// `s` with `c` appended, unless it is full.
pub open spec fn push_bounded(s: Seq<Cand>, c: Cand, max_cand: int) -> Seq<Cand> {
    if s.len() < max_cand {
        s.push(c)
    } else {
        s
    }
}

/// `s` with `c` appended if there is such a candidate, it differs from `d1` and `d2`, and the list
/// is not full.
pub open spec fn push_distinct(
    s: Seq<Cand>,
    c: Option<Cand>,
    d1: Option<Cand>,
    d2: Option<Cand>,
    max_cand: int,
) -> Seq<Cand> {
    if c is Some && c != d1 && c != d2 {
        push_bounded(s, c->0, max_cand)
    } else {
        s
    }
}

/// The spatial part of the merge list, in the order left, above, right above, left below, corner.
/// Neighbours that repeat the motion of one they are compared with are left out, and the corner is
/// considered only while fewer than four candidates are in the list.
pub open spec fn spatial_list<N: Neighbors>(nb: &N, pu: PuGeom, max_cand: int) -> Seq<Cand> {
    let (x, y, w, h) = (pu.x as int, pu.y as int, pu.w as int, pu.h as int);
    let a1 = spatial_cand(nb, pu, x - 1, y + h - 1, SpatialPos::A1);
    let b1 = spatial_cand(nb, pu, x + w - 1, y - 1, SpatialPos::B1);
    let b0 = spatial_cand(nb, pu, x + w, y - 1, SpatialPos::B0);
    let a0 = spatial_cand(nb, pu, x - 1, y + h, SpatialPos::A0);
    let b2 = spatial_cand(nb, pu, x - 1, y - 1, SpatialPos::B2);
    let s1 = push_distinct(Seq::empty(), a1, None, None, max_cand);
    let s2 = push_distinct(s1, b1, a1, None, max_cand);
    let s3 = push_distinct(s2, b0, b1, None, max_cand);
    let s4 = push_distinct(s3, a0, a1, None, max_cand);
    if s4.len() < 4 {
        push_distinct(s4, b2, a1, b1, max_cand)
    } else {
        s4
    }
}

/// The list after the temporal candidate.
pub open spec fn with_temporal<N: Neighbors>(
    nb: &N,
    pu: PuGeom,
    max_cand: int,
    temporal_enabled: bool,
    list0: Seq<RefEntry>,
    list1: Seq<RefEntry>,
) -> Seq<Cand> {
    let s = spatial_list(nb, pu, max_cand);
    if temporal_enabled {
        push_distinct(s, temporal_cand(nb, pu, list0, list1), None, None, max_cand)
    } else {
        s
    }
}

/// The pair of candidates that combination `k` takes its list 0 and list 1 motion from.
pub open spec fn combination(k: int) -> (int, int) {
    let j = k % 12;
    if j == 0 {
        (0, 1)
    } else if j == 1 {
        (1, 0)
    } else if j == 2 {
        (0, 2)
    } else if j == 3 {
        (2, 0)
    } else if j == 4 {
        (1, 2)
    } else if j == 5 {
        (2, 1)
    } else if j == 6 {
        (0, 3)
    } else if j == 7 {
        (3, 0)
    } else if j == 8 {
        (1, 3)
    } else if j == 9 {
        (3, 1)
    } else if j == 10 {
        (2, 3)
    } else {
        (3, 2)
    }
}

/// Picture order count of the picture at a reference index; negative indices count as 0.
pub open spec fn poc_at(list: Seq<RefEntry>, idx: int) -> Option<i32> {
    let i = max_int(idx, 0);
    if i < list.len() {
        Some(list[i].poc)
    } else {
        None
    }
}

/// Motion of `a` in list 0 and of `b` in list 1 make a candidate that differs in its two halves.
pub open spec fn combines(a: Cand, b: Cand, list0: Seq<RefEntry>, list1: Seq<RefEntry>) -> bool {
    &&& a.pred.l0
    &&& b.pred.l1
    &&& poc_at(list0, a.idx0) != poc_at(list1, b.idx1) || a.mv0 != b.mv1
}

pub open spec fn combined(a: Cand, b: Cand) -> Cand {
    Cand { pred: PredFlags { l0: true, l1: true }, mv0: a.mv0, mv1: b.mv1, idx0: a.idx0, idx1: b.idx1 }
}

/// The list after the combinations from `k` on of its first `n` candidates.
pub open spec fn combine_from(
    s: Seq<Cand>,
    max_cand: int,
    list0: Seq<RefEntry>,
    list1: Seq<RefEntry>,
    n: int,
    k: int,
) -> Seq<Cand>
    decreases n * (n - 1) - k,
{
    if s.len() < max_cand && k < n * (n - 1) {
        let (i0, i1) = combination(k);
        let t = if i0 < n && i1 < n && combines(s[i0], s[i1], list0, list1) {
            s.push(combined(s[i0], s[i1]))
        } else {
            s
        };
        combine_from(t, max_cand, list0, list1, n, k + 1)
    } else {
        s
    }
}

/// The list after the combined candidates.
pub open spec fn with_combined(
    s: Seq<Cand>,
    max_cand: int,
    list0: Seq<RefEntry>,
    list1: Seq<RefEntry>,
) -> Seq<Cand> {
    if s.len() < 2 || s.len() >= max_cand {
        s
    } else {
        combine_from(s, max_cand, list0, list1, s.len() as int, 0)
    }
}

/// The candidate without motion at a reference index.
pub open spec fn zero_at(is_b: bool, r: int) -> Cand {
    Cand {
        pred: PredFlags { l0: true, l1: is_b },
        mv0: Mv::zero(),
        mv1: Mv::zero(),
        idx0: r,
        idx1: if is_b {
            r
        } else {
            -1
        },
    }
}

/// The list after zero candidates from number `z` on: one for each reference index, then more for
/// index 0, at most 33 in all.
pub open spec fn zeros_from(s: Seq<Cand>, max_cand: int, is_b: bool, num_ref: int, z: int) -> Seq<
    Cand,
>
    decreases 33 - z,
{
    if s.len() < max_cand && z <= 32 {
        let r = if z < num_ref {
            z
        } else {
            0
        };
        zeros_from(s.push(zero_at(is_b, r)), max_cand, is_b, num_ref, z + 1)
    } else {
        s
    }
}

/// The list after the zero candidates; without references there are none.
pub open spec fn with_zeros(s: Seq<Cand>, max_cand: int, is_b: bool, n0: int, n1: int) -> Seq<Cand> {
    let num_ref = if is_b {
        min_int(n0, n1)
    } else {
        n0
    };
    if num_ref == 0 {
        s
    } else {
        zeros_from(s, max_cand, is_b, num_ref, 0)
    }
}

/// The whole merge candidate list.
pub open spec fn merge_list<N: Neighbors>(
    nb: &N,
    pu: PuGeom,
    max_cand: int,
    temporal_enabled: bool,
    list0: Seq<RefEntry>,
    list1: Seq<RefEntry>,
) -> Seq<Cand> {
    let s = with_temporal(nb, pu, max_cand, temporal_enabled, list0, list1);
    let t = if pu.is_b {
        with_combined(s, max_cand, list0, list1)
    } else {
        s
    };
    let n0 = if pu.curr_pic_ref {
        max_int(list0.len() - 1, 0)
    } else {
        list0.len() as int
    };
    with_zeros(t, max_cand, pu.is_b, n0, list1.len() as int)
}

/// Appends a candidate that differs from two others, as far as the list has room.
fn push_unique(
    cands: &mut Vec<MergeCand>,
    c: Option<MergeCand>,
    d1: Option<MergeCand>,
    d2: Option<MergeCand>,
    max_cand: usize,
)
    ensures
        cand_views(final(cands)@) == push_distinct(
            cand_views(old(cands)@),
            cand_view(c),
            cand_view(d1),
            cand_view(d2),
            max_cand as int,
        ),
{
    if let Some(v) = c {
        let same1: bool = match d1 {
            Some(d) => d.same_motion(&v),
            None => false,
        };
        let same2: bool = match d2 {
            Some(d) => d.same_motion(&v),
            None => false,
        };
        if !same1 && !same2 && cands.len() < max_cand {
            cands.push(v);
            assert(cand_views(cands@) =~= cand_views(old(cands)@).push(v@));
        }
    }
}

fn combination_of(k: usize) -> (r: (usize, usize))
    ensures
        (r.0 as int, r.1 as int) == combination(k as int),
        r.0 < 4,
        r.1 < 4,
{
    match k % 12 {
        0 => (0, 1),
        1 => (1, 0),
        2 => (0, 2),
        3 => (2, 0),
        4 => (1, 2),
        5 => (2, 1),
        6 => (0, 3),
        7 => (3, 0),
        8 => (1, 3),
        9 => (3, 1),
        10 => (2, 3),
        _ => (3, 2),
    }
}

fn poc_of(list: &[RefEntry], idx: i8) -> (r: Option<i32>)
    ensures
        r == poc_at(list@, idx as int),
{
    let i: usize = if idx > 0 {
        idx as usize
    } else {
        0
    };
    if i < list.len() {
        Some(list[i].poc)
    } else {
        None
    }
}

/// Appends the combined candidates.
fn derive_combined(
    cands: &mut Vec<MergeCand>,
    max_cand: usize,
    list0: &[RefEntry],
    list1: &[RefEntry],
)
    requires
        old(cands)@.len() <= 5,
    ensures
        cand_views(final(cands)@) == with_combined(
            cand_views(old(cands)@),
            max_cand as int,
            list0@,
            list1@,
        ),
{
    if cands.len() < 2 || cands.len() >= max_cand {
        return;
    }
    let n: usize = cands.len();
    let ghost whole = combine_from(
        cand_views(cands@),
        max_cand as int,
        list0@,
        list1@,
        n as int,
        0,
    );
    proof {
        assert(n * (n - 1) <= 20) by (nonlinear_arith)
            requires
                2 <= n <= 5,
        ;
    }
    let mut k: usize = 0;
    while cands.len() < max_cand && k < n * (n - 1)
        invariant
            2 <= n <= 5,
            n <= cands.len(),
            k <= n * (n - 1) <= 20,
            whole == combine_from(
                cand_views(cands@),
                max_cand as int,
                list0@,
                list1@,
                n as int,
                k as int,
            ),
        decreases n * (n - 1) - k,
    {
        let (i0, i1) = combination_of(k);
        let ghost before = cand_views(cands@);
        if i0 < n && i1 < n {
            let a: MergeCand = cands[i0];
            let b: MergeCand = cands[i1];
            assert(before[i0 as int] == a@ && before[i1 as int] == b@);
            if a.pred.l0 && b.pred.l1 {
                let poc0: Option<i32> = poc_of(list0, a.ref_idx[0]);
                let poc1: Option<i32> = poc_of(list1, b.ref_idx[1]);
                let same_picture: bool = match (poc0, poc1) {
                    (Some(p), Some(q)) => p == q,
                    (None, None) => true,
                    _ => false,
                };
                if !same_picture || a.mv[0] != b.mv[1] {
                    let c: MergeCand = MergeCand {
                        pred: PredFlags { l0: true, l1: true },
                        mv: [a.mv[0], b.mv[1]],
                        ref_idx: [a.ref_idx[0], b.ref_idx[1]],
                    };
                    cands.push(c);
                    assert(cand_views(cands@) =~= before.push(combined(a@, b@)));
                }
            }
        }
        k = k + 1;
    }
}

/// Appends the zero candidates.
fn derive_zero(cands: &mut Vec<MergeCand>, max_cand: usize, is_b: bool, n0: usize, n1: usize)
    ensures
        cand_views(final(cands)@) == with_zeros(
            cand_views(old(cands)@),
            max_cand as int,
            is_b,
            n0 as int,
            n1 as int,
        ),
{
    let num_ref: usize = if is_b && n1 < n0 {
        n1
    } else {
        n0
    };
    if num_ref == 0 {
        return;
    }
    let ghost whole = zeros_from(cand_views(cands@), max_cand as int, is_b, num_ref as int, 0);
    let mut zero_idx: i8 = 0;
    while cands.len() < max_cand && zero_idx <= 32
        invariant
            0 <= zero_idx <= 33,
            whole == zeros_from(
                cand_views(cands@),
                max_cand as int,
                is_b,
                num_ref as int,
                zero_idx as int,
            ),
        decreases 33 - zero_idx,
    {
        let r: i8 = if (zero_idx as usize) < num_ref {
            zero_idx
        } else {
            0
        };
        let ghost before = cand_views(cands@);
        let c: MergeCand = MergeCand {
            pred: PredFlags { l0: true, l1: is_b },
            mv: [Mv::default(), Mv::default()],
            ref_idx: [
                r,
                if is_b {
                    r
                } else {
                    -1
                },
            ],
        };
        cands.push(c);
        assert(cand_views(cands@) =~= before.push(zero_at(is_b, r as int)));
        zero_idx = zero_idx + 1;
    }
}

/// The candidate that stands in for a missing one.
fn zero_cand(is_b: bool) -> (r: MergeCand)
    ensures
        r@ == zero_at(is_b, 0),
{
    MergeCand {
        pred: PredFlags { l0: true, l1: is_b },
        mv: [Mv::default(), Mv::default()],
        ref_idx: [
            0,
            if is_b {
                0
            } else {
                -1
            },
        ],
    }
}

proof fn lemma_spatial_list_len<N: Neighbors>(nb: &N, pu: PuGeom, max_cand: int)
    ensures
        spatial_list(nb, pu, max_cand).len() <= 4,
        max_cand >= 0 ==> spatial_list(nb, pu, max_cand).len() <= max_cand,
{
}

/// The candidate of the merge list at `merge_idx`; past the end of the list it is the zero
/// candidate of reference index 0.
pub fn derive_merge<N: Neighbors>(
    nb: &N,
    pu: &PuGeom,
    merge_idx: usize,
    max_cand: usize,
    temporal_enabled: bool,
    list0: &[RefEntry],
    list1: &[RefEntry],
) -> (r: MergeCand)
    requires
        pu.wf(),
        temporal_enabled ==> nb.ctb_bits() < 32,
    ensures
        ({
            let s = merge_list(nb, *pu, max_cand as int, temporal_enabled, list0@, list1@);
            r@ == if merge_idx < s.len() {
                s[merge_idx as int]
            } else {
                zero_at(pu.is_b, 0)
            }
        }),
{
    let mut cands: Vec<MergeCand> = Vec::new();
    let x: isize = pu.x as isize;
    let y: isize = pu.y as isize;
    let w: isize = pu.w as isize;
    let h: isize = pu.h as isize;
    assert(cand_views(cands@) =~= Seq::<Cand>::empty());
    let a1: Option<MergeCand> = spatial(nb, x - 1, y + h - 1, pu, SpatialPos::A1);
    push_unique(&mut cands, a1, None, None, max_cand);
    let b1: Option<MergeCand> = spatial(nb, x + w - 1, y - 1, pu, SpatialPos::B1);
    push_unique(&mut cands, b1, a1, None, max_cand);
    let b0: Option<MergeCand> = spatial(nb, x + w, y - 1, pu, SpatialPos::B0);
    push_unique(&mut cands, b0, b1, None, max_cand);
    let a0: Option<MergeCand> = spatial(nb, x - 1, y + h, pu, SpatialPos::A0);
    push_unique(&mut cands, a0, a1, None, max_cand);
    if cands.len() < 4 {
        let b2: Option<MergeCand> = spatial(nb, x - 1, y - 1, pu, SpatialPos::B2);
        push_unique(&mut cands, b2, a1, b1, max_cand);
    }
    assert(cand_views(cands@) == spatial_list(nb, *pu, max_cand as int));
    proof {
        lemma_spatial_list_len(nb, *pu, max_cand as int);
        assert(cand_views(cands@).len() == cands@.len());
    }
    if temporal_enabled && cands.len() < max_cand {
        let t: Option<MergeCand> = temporal_merge(nb, pu, list0, list1);
        push_unique(&mut cands, t, None, None, max_cand);
    }
    assert(cand_views(cands@).len() == cands@.len());
    if pu.is_b {
        derive_combined(&mut cands, max_cand, list0, list1);
    }
    let n0: usize = if pu.curr_pic_ref && list0.len() > 0 {
        list0.len() - 1
    } else {
        list0.len()
    };
    derive_zero(&mut cands, max_cand, pu.is_b, n0, list1.len());
    assert(cand_views(cands@) == merge_list(
        nb,
        *pu,
        max_cand as int,
        temporal_enabled,
        list0@,
        list1@,
    ));
    assert(cand_views(cands@).len() == cands@.len());
    if merge_idx < cands.len() {
        cands[merge_idx]
    } else {
        zero_cand(pu.is_b)
    }
}

/// The length of the merge list never exceeds its bound.
pub proof fn merge_list_is_bounded<N: Neighbors>(
    nb: &N,
    pu: PuGeom,
    max_cand: int,
    temporal_enabled: bool,
    list0: Seq<RefEntry>,
    list1: Seq<RefEntry>,
)
    requires
        max_cand >= 0,
    ensures
        merge_list(nb, pu, max_cand, temporal_enabled, list0, list1).len() <= max_cand,
{
    lemma_spatial_list_len(nb, pu, max_cand);
    let s = with_temporal(nb, pu, max_cand, temporal_enabled, list0, list1);
    lemma_combine_extends(s, max_cand, list0, list1, s.len() as int, 0);
    let t = if pu.is_b {
        with_combined(s, max_cand, list0, list1)
    } else {
        s
    };
    let n0 = if pu.curr_pic_ref {
        max_int(list0.len() - 1, 0)
    } else {
        list0.len() as int
    };
    let num_ref = if pu.is_b {
        min_int(n0, list1.len() as int)
    } else {
        n0
    };
    lemma_zeros_extend(t, max_cand, pu.is_b, num_ref, 0);
}

/// With a reference that is not the current picture, and a bound of at most 33, the merge list is
/// full: every index below the bound names a candidate.
pub proof fn merge_list_is_full<N: Neighbors>(
    nb: &N,
    pu: PuGeom,
    max_cand: int,
    temporal_enabled: bool,
    list0: Seq<RefEntry>,
    list1: Seq<RefEntry>,
)
    requires
        0 <= max_cand <= 33,
        list0.len() > if pu.curr_pic_ref {
            1nat
        } else {
            0
        },
        pu.is_b ==> list1.len() > 0,
    ensures
        merge_list(nb, pu, max_cand, temporal_enabled, list0, list1).len() == max_cand,
{
    merge_list_is_bounded(nb, pu, max_cand, temporal_enabled, list0, list1);
    let s = with_temporal(nb, pu, max_cand, temporal_enabled, list0, list1);
    let t = if pu.is_b {
        with_combined(s, max_cand, list0, list1)
    } else {
        s
    };
    let n0 = if pu.curr_pic_ref {
        max_int(list0.len() - 1, 0)
    } else {
        list0.len() as int
    };
    let num_ref = if pu.is_b {
        min_int(n0, list1.len() as int)
    } else {
        n0
    };
    lemma_zeros_extend(t, max_cand, pu.is_b, num_ref, 0);
}

/// The spatial and temporal candidates keep their places: later stages only append.
pub proof fn merge_list_only_grows<N: Neighbors>(
    nb: &N,
    pu: PuGeom,
    max_cand: int,
    temporal_enabled: bool,
    list0: Seq<RefEntry>,
    list1: Seq<RefEntry>,
    i: int,
)
    requires
        0 <= i < with_temporal(nb, pu, max_cand, temporal_enabled, list0, list1).len(),
    ensures
        i < merge_list(nb, pu, max_cand, temporal_enabled, list0, list1).len(),
        merge_list(nb, pu, max_cand, temporal_enabled, list0, list1)[i] == with_temporal(
            nb,
            pu,
            max_cand,
            temporal_enabled,
            list0,
            list1,
        )[i],
{
    let s = with_temporal(nb, pu, max_cand, temporal_enabled, list0, list1);
    lemma_combine_extends(s, max_cand, list0, list1, s.len() as int, 0);
    let t = if pu.is_b {
        with_combined(s, max_cand, list0, list1)
    } else {
        s
    };
    let n0 = if pu.curr_pic_ref {
        max_int(list0.len() - 1, 0)
    } else {
        list0.len() as int
    };
    let num_ref = if pu.is_b {
        min_int(n0, list1.len() as int)
    } else {
        n0
    };
    lemma_zeros_extend(t, max_cand, pu.is_b, num_ref, 0);
}

proof fn lemma_combine_extends(
    s: Seq<Cand>,
    max_cand: int,
    list0: Seq<RefEntry>,
    list1: Seq<RefEntry>,
    n: int,
    k: int,
)
    ensures
        ({
            let t = combine_from(s, max_cand, list0, list1, n, k);
            &&& s.len() <= t.len()
            &&& s.len() <= max_cand ==> t.len() <= max_cand
            &&& forall|i: int| 0 <= i < s.len() ==> t[i] == s[i]
        }),
    decreases n * (n - 1) - k,
{
    if s.len() < max_cand && k < n * (n - 1) {
        let (i0, i1) = combination(k);
        let t = if i0 < n && i1 < n && combines(s[i0], s[i1], list0, list1) {
            s.push(combined(s[i0], s[i1]))
        } else {
            s
        };
        lemma_combine_extends(t, max_cand, list0, list1, n, k + 1);
        assert forall|i: int| 0 <= i < s.len() implies combine_from(
            s,
            max_cand,
            list0,
            list1,
            n,
            k,
        )[i] == s[i] by {
            assert(t[i] == s[i]);
        }
    }
}

proof fn lemma_zeros_extend(s: Seq<Cand>, max_cand: int, is_b: bool, num_ref: int, z: int)
    ensures
        ({
            let t = zeros_from(s, max_cand, is_b, num_ref, z);
            &&& s.len() <= t.len()
            &&& s.len() <= max_cand ==> t.len() <= max_cand
            &&& 0 <= z && max_cand <= s.len() + 33 - z ==> t.len() >= max_cand
            &&& forall|i: int| 0 <= i < s.len() ==> t[i] == s[i]
        }),
    decreases 33 - z,
{
    if s.len() < max_cand && z <= 32 {
        let r = if z < num_ref {
            z
        } else {
            0
        };
        let t = s.push(zero_at(is_b, r));
        lemma_zeros_extend(t, max_cand, is_b, num_ref, z + 1);
        assert forall|i: int| 0 <= i < s.len() implies zeros_from(
            s,
            max_cand,
            is_b,
            num_ref,
            z,
        )[i] == s[i] by {
            assert(t[i] == s[i]);
        }
    }
}

/// Motion at `(x, y)` that vector prediction may look at: usable, and not of an intra unit.
pub open spec fn inter_motion<N: Neighbors>(nb: &N, pu: PuGeom, x: int, y: int) -> Option<
    MotionInfo,
> {
    match nb.motion(x, y) {
        Some(m) => if usable(nb, pu, x, y) && !m.is_intra {
            Some(m)
        } else {
            None
        },
        None => None,
    }
}

/// The vector of `m` that points at `ref_poc`, from the list asked for or else the other one.
pub open spec fn same_ref_mv(m: MotionInfo, list: int, ref_poc: int) -> Option<Mv> {
    if m.uses(list) && m.ref_poc@[list] == ref_poc {
        Some(m.mv@[list])
    } else if m.uses(1 - list) && m.ref_poc@[1 - list] == ref_poc {
        Some(m.mv@[1 - list])
    } else {
        None
    }
}

/// The vector of `m` in a list, brought to the distance of `ref_poc`; vectors to long-term pictures
/// stay as they are.
pub open spec fn rescaled(
    m: MotionInfo,
    l: int,
    ref_poc: int,
    cur_poc: int,
    target_lt: bool,
) -> Mv {
    if target_lt {
        m.mv@[l]
    } else {
        scaled(m.mv@[l], cur_poc - m.ref_poc@[l], cur_poc - ref_poc)
    }
}

/// The vector of `m` to a picture of the same kind as the target, rescaled.
pub open spec fn same_kind_mv(
    m: MotionInfo,
    list: int,
    ref_poc: int,
    cur_poc: int,
    target_lt: bool,
) -> Option<Mv> {
    if m.uses(list) && m.ref_lt@[list] == target_lt {
        Some(rescaled(m, list, ref_poc, cur_poc, target_lt))
    } else if m.uses(1 - list) && m.ref_lt@[1 - list] == target_lt {
        Some(rescaled(m, 1 - list, ref_poc, cur_poc, target_lt))
    } else {
        None
    }
}

/// What a search takes from a position: a vector to the very picture, or one of the same kind.
pub open spec fn position_mv<N: Neighbors>(
    nb: &N,
    pu: PuGeom,
    p: (isize, isize),
    list: int,
    ref_poc: int,
    same_ref: bool,
    target_lt: bool,
) -> Option<Mv> {
    match inter_motion(nb, pu, p.0 as int, p.1 as int) {
        Some(m) => if same_ref {
            same_ref_mv(m, list, ref_poc)
        } else {
            same_kind_mv(m, list, ref_poc, nb.poc(), target_lt)
        },
        None => None,
    }
}

/// The first vector that a search finds along the positions from number `k` on.
pub open spec fn first_mv<N: Neighbors>(
    nb: &N,
    pu: PuGeom,
    positions: Seq<(isize, isize)>,
    list: int,
    ref_poc: int,
    same_ref: bool,
    target_lt: bool,
    k: int,
) -> Option<Mv>
    decreases positions.len() - k,
{
    if k >= positions.len() {
        None
    } else {
        match position_mv(nb, pu, positions[k], list, ref_poc, same_ref, target_lt) {
            Some(mv) => Some(mv),
            None => first_mv(nb, pu, positions, list, ref_poc, same_ref, target_lt, k + 1),
        }
    }
}

/// All picture distances that vector prediction computes are representable.
pub open spec fn distances_fit<N: Neighbors>(nb: &N, ref_poc: int) -> bool {
    &&& i32::MIN <= nb.poc() - ref_poc <= i32::MAX
    &&& forall|x: int, y: int, l: int|
        #![trigger nb.motion(x, y)->0.ref_poc@[l]]
        nb.motion(x, y) is Some && 0 <= l < 2 ==> i32::MIN <= nb.poc() - nb.motion(
            x,
            y,
        )->0.ref_poc@[l] <= i32::MAX
}

fn rescaled_mv(m: &MotionInfo, l: usize, ref_poc: i32, cur_poc: i32, target_lt: bool) -> (r: Mv)
    requires
        l < 2,
        i32::MIN <= cur_poc - ref_poc <= i32::MAX,
        i32::MIN <= cur_poc - m.ref_poc@[l as int] <= i32::MAX,
    ensures
        r == rescaled(*m, l as int, ref_poc as int, cur_poc as int, target_lt),
{
    if target_lt {
        return m.mv[l];
    }
    scale_mv(m.mv[l], cur_poc - m.ref_poc[l], cur_poc - ref_poc)
}

/// Searches positions for a vector predictor. The first pass takes vectors to the target picture
/// itself, the second rescales vectors to pictures of the same kind.
pub fn amvp_spatial<N: Neighbors>(
    nb: &N,
    pu: &PuGeom,
    positions: &[(isize, isize)],
    list: usize,
    ref_poc: i32,
    cur_poc: i32,
    allow_scaled: bool,
    do_same_ref: bool,
    target_lt: bool,
) -> (r: Option<Mv>)
    requires
        pu.wf(),
        list < 2,
        cur_poc == nb.poc(),
        distances_fit(nb, ref_poc as int),
    ensures
        ({
            let same = first_mv(nb, *pu, positions@, list as int, ref_poc as int, true, target_lt, 0);
            let kind = first_mv(nb, *pu, positions@, list as int, ref_poc as int, false, target_lt, 0);
            r == if do_same_ref && same is Some {
                same
            } else if allow_scaled {
                kind
            } else {
                None
            }
        }),
{
    let other: usize = 1 - list;
    let n: usize = positions.len();
    if do_same_ref {
        let mut k: usize = 0;
        while k < n
            invariant
                pu.wf(),
                list < 2,
                other == 1 - list,
                n == positions@.len(),
                k <= n,
                do_same_ref,
                first_mv(nb, *pu, positions@, list as int, ref_poc as int, true, target_lt, 0)
                    == first_mv(
                    nb,
                    *pu,
                    positions@,
                    list as int,
                    ref_poc as int,
                    true,
                    target_lt,
                    k as int,
                ),
            decreases n - k,
        {
            let (px, py): (isize, isize) = positions[k];
            if prediction_block_available(nb, pu, px, py) {
                if let Some(m) = nb.motion_at(px, py) {
                    if !m.is_intra {
                        if m.pred_uses(list) && m.ref_poc[list] == ref_poc {
                            return Some(m.mv[list]);
                        }
                        if m.pred_uses(other) && m.ref_poc[other] == ref_poc {
                            return Some(m.mv[other]);
                        }
                    }
                }
            }
            k = k + 1;
        }
    }
    if !allow_scaled {
        return None;
    }
    let mut k: usize = 0;
    while k < n
        invariant
            pu.wf(),
            list < 2,
            other == 1 - list,
            n == positions@.len(),
            k <= n,
            allow_scaled,
            cur_poc == nb.poc(),
            distances_fit(nb, ref_poc as int),
            do_same_ref ==> first_mv(
                nb,
                *pu,
                positions@,
                list as int,
                ref_poc as int,
                true,
                target_lt,
                0,
            ) is None,
            first_mv(nb, *pu, positions@, list as int, ref_poc as int, false, target_lt, 0)
                == first_mv(
                nb,
                *pu,
                positions@,
                list as int,
                ref_poc as int,
                false,
                target_lt,
                k as int,
            ),
        decreases n - k,
    {
        let (px, py): (isize, isize) = positions[k];
        if prediction_block_available(nb, pu, px, py) {
            if let Some(m) = nb.motion_at(px, py) {
                assert(nb.motion(px as int, py as int)->0.ref_poc@[list as int]
                    == m.ref_poc@[list as int]);
                assert(nb.motion(px as int, py as int)->0.ref_poc@[other as int]
                    == m.ref_poc@[other as int]);
                if !m.is_intra {
                    if m.pred_uses(list) && m.ref_lt[list] == target_lt {
                        return Some(rescaled_mv(&m, list, ref_poc, cur_poc, target_lt));
                    }
                    if m.pred_uses(other) && m.ref_lt[other] == target_lt {
                        return Some(rescaled_mv(&m, other, ref_poc, cur_poc, target_lt));
                    }
                }
            }
        }
        k = k + 1;
    }
    None
}

/// Positions of the left group, from below up.
pub open spec fn left_group(pu: PuGeom) -> Seq<(isize, isize)> {
    seq![
        ((pu.x - 1) as isize, (pu.y + pu.h) as isize),
        ((pu.x - 1) as isize, (pu.y + pu.h - 1) as isize),
    ]
}

/// Positions of the group above, from the right to the left.
pub open spec fn above_group(pu: PuGeom) -> Seq<(isize, isize)> {
    seq![
        ((pu.x + pu.w) as isize, (pu.y - 1) as isize),
        ((pu.x + pu.w - 1) as isize, (pu.y - 1) as isize),
        ((pu.x - 1) as isize, (pu.y - 1) as isize),
    ]
}

/// A position of the left group has inter motion.
pub open spec fn left_is_inter<N: Neighbors>(nb: &N, pu: PuGeom) -> bool {
    ||| inter_motion(nb, pu, pu.x - 1, pu.y + pu.h) is Some
    ||| inter_motion(nb, pu, pu.x - 1, pu.y + pu.h - 1) is Some
}

/// Whether the first entry from number `k` on with the given picture order count is a long-term
/// reference.
pub open spec fn long_term_of(refs: Seq<RefEntry>, ref_poc: int, k: int) -> bool
    decreases refs.len() - k,
{
    if k >= refs.len() {
        false
    } else if refs[k].poc == ref_poc {
        refs[k].long_term
    } else {
        long_term_of(refs, ref_poc, k + 1)
    }
}

/// The two spatial predictors. If the left group has no inter motion, the predictor above takes its
/// place, and the one above is replaced by a rescaled vector.
pub open spec fn spatial_predictors<N: Neighbors>(
    nb: &N,
    pu: PuGeom,
    list: int,
    ref_poc: int,
    target_lt: bool,
) -> (Option<Mv>, Option<Mv>) {
    let above = first_mv(nb, pu, above_group(pu), list, ref_poc, true, target_lt, 0);
    if left_is_inter(nb, pu) {
        let same = first_mv(nb, pu, left_group(pu), list, ref_poc, true, target_lt, 0);
        let left = if same is Some {
            same
        } else {
            first_mv(nb, pu, left_group(pu), list, ref_poc, false, target_lt, 0)
        };
        (left, above)
    } else {
        (above, first_mv(nb, pu, above_group(pu), list, ref_poc, false, target_lt, 0))
    }
}

/// The spatial predictors as a list without repetition.
pub open spec fn distinct_predictors(a: Option<Mv>, b: Option<Mv>) -> Seq<Mv> {
    let s = match a {
        Some(mv) => seq![mv],
        None => Seq::empty(),
    };
    if b is Some && b != a {
        s.push(b->0)
    } else {
        s
    }
}

/// All predictors before padding.
pub open spec fn predictor_list<N: Neighbors>(
    nb: &N,
    pu: PuGeom,
    list: int,
    ref_poc: int,
    temporal_enabled: bool,
    target_lt: bool,
) -> Seq<Mv> {
    let (a, b) = spatial_predictors(nb, pu, list, ref_poc, target_lt);
    let s = distinct_predictors(a, b);
    let t = temporal_mv(nb, pu, list, ref_poc);
    if s.len() < 2 && temporal_enabled && t is Some {
        s.push(t->0)
    } else {
        s
    }
}

/// Predictor number `i`; the list is padded with zero vectors.
pub open spec fn predictor<N: Neighbors>(
    nb: &N,
    pu: PuGeom,
    list: int,
    ref_poc: int,
    temporal_enabled: bool,
    target_lt: bool,
    i: int,
) -> Mv {
    let s = predictor_list(nb, pu, list, ref_poc, temporal_enabled, target_lt);
    if i < s.len() {
        s[i]
    } else {
        Mv::zero()
    }
}

fn long_term_in(refs: &[RefEntry], ref_poc: i32) -> (r: Option<bool>)
    ensures
        r is Some ==> r->0 == long_term_of(refs@, ref_poc as int, 0),
        r is None <==> forall|i: int| 0 <= i < refs@.len() ==> refs@[i].poc != ref_poc,
{
    let mut k: usize = 0;
    while k < refs.len()
        invariant
            k <= refs@.len(),
            forall|i: int| 0 <= i < k ==> refs@[i].poc != ref_poc,
            long_term_of(refs@, ref_poc as int, 0) == long_term_of(
                refs@,
                ref_poc as int,
                k as int,
            ),
        decreases refs@.len() - k,
    {
        if refs[k].poc == ref_poc {
            return Some(refs[k].long_term);
        }
        k = k + 1;
    }
    None
}

proof fn lemma_long_term_concat(a: Seq<RefEntry>, b: Seq<RefEntry>, ref_poc: int, k: int)
    requires
        0 <= k <= a.len(),
    ensures
        ({
            let hit = exists|i: int| k <= i < a.len() && (#[trigger] a[i]).poc == ref_poc;
            long_term_of(a + b, ref_poc, k) == if hit {
                long_term_of(a, ref_poc, k)
            } else {
                long_term_of(b, ref_poc, 0)
            }
        }),
    decreases a.len() - k,
{
    if k < a.len() {
        assert((a + b)[k] == a[k]);
        if a[k].poc != ref_poc {
            lemma_long_term_concat(a, b, ref_poc, k + 1);
        }
    } else {
        lemma_long_term_shift(a, b, ref_poc, 0);
    }
}

proof fn lemma_long_term_shift(a: Seq<RefEntry>, b: Seq<RefEntry>, ref_poc: int, k: int)
    requires
        0 <= k <= b.len(),
    ensures
        long_term_of(a + b, ref_poc, a.len() + k) == long_term_of(b, ref_poc, k),
    decreases b.len() - k,
{
    if k < b.len() {
        assert((a + b)[a.len() + k] == b[k]);
        if b[k].poc != ref_poc {
            lemma_long_term_shift(a, b, ref_poc, k + 1);
        }
    }
}

fn is_inter_at<N: Neighbors>(nb: &N, pu: &PuGeom, px: isize, py: isize) -> (r: bool)
    requires
        pu.wf(),
    ensures
        r == (inter_motion(nb, *pu, px as int, py as int) is Some),
{
    if !prediction_block_available(nb, pu, px, py) {
        return false;
    }
    match nb.motion_at(px, py) {
        Some(m) => !m.is_intra,
        None => false,
    }
}

/// The two motion vector predictors of a unit for a target picture, which is a long-term reference
/// if the first entry with its picture order count is.
pub fn derive_amvp<N: Neighbors>(
    nb: &N,
    pu: &PuGeom,
    list: usize,
    ref_poc: i32,
    temporal_enabled: bool,
    col_list0: &[RefEntry],
    col_list1: &[RefEntry],
) -> (r: [Mv; 2])
    requires
        pu.wf(),
        list < 2,
        distances_fit(nb, ref_poc as int),
        temporal_enabled ==> nb.ctb_bits() < 32,
    ensures
        ({
            let lt = long_term_of(col_list0@ + col_list1@, ref_poc as int, 0);
            forall|i: int|
                0 <= i < 2 ==> r@[i] == predictor(
                    nb,
                    *pu,
                    list as int,
                    ref_poc as int,
                    temporal_enabled,
                    lt,
                    i,
                )
        }),
{
    let x: isize = pu.x as isize;
    let y: isize = pu.y as isize;
    let w: isize = pu.w as isize;
    let h: isize = pu.h as isize;
    let cur_poc: i32 = nb.cur_poc();
    let a_pos: [(isize, isize); 2] = [(x - 1, y + h), (x - 1, y + h - 1)];
    let b_pos: [(isize, isize); 3] = [(x + w, y - 1), (x + w - 1, y - 1), (x - 1, y - 1)];
    assert(a_pos@ =~= left_group(*pu));
    assert(b_pos@ =~= above_group(*pu));
    let is_scaled_flag: bool = is_inter_at(nb, pu, x - 1, y + h) || is_inter_at(
        nb,
        pu,
        x - 1,
        y + h - 1,
    );
    let first: Option<bool> = long_term_in(col_list0, ref_poc);
    let target_lt: bool = match first {
        Some(lt) => lt,
        None => match long_term_in(col_list1, ref_poc) {
            Some(lt) => lt,
            None => false,
        },
    };
    proof {
        lemma_long_term_concat(col_list0@, col_list1@, ref_poc as int, 0);
        lemma_long_term_absent(col_list1@, ref_poc as int, 0);
    }
    assert(target_lt == long_term_of(col_list0@ + col_list1@, ref_poc as int, 0));
    let mut a: Option<Mv> = amvp_spatial(
        nb,
        pu,
        a_pos.as_slice(),
        list,
        ref_poc,
        cur_poc,
        true,
        true,
        target_lt,
    );
    let mut b: Option<Mv> = amvp_spatial(
        nb,
        pu,
        b_pos.as_slice(),
        list,
        ref_poc,
        cur_poc,
        false,
        true,
        target_lt,
    );
    if !is_scaled_flag {
        if a.is_none() {
            a = b;
        }
        b =
        amvp_spatial(
            nb,
            pu,
            b_pos.as_slice(),
            list,
            ref_poc,
            cur_poc,
            true,
            false,
            target_lt,
        );
    }
    proof {
        reveal_with_fuel(first_mv, 4);
    }
    assert((a, b) == spatial_predictors(nb, *pu, list as int, ref_poc as int, target_lt));
    let mut preds: Vec<Mv> = Vec::new();
    if let Some(mv) = a {
        preds.push(mv);
    }
    if let Some(mv) = b {
        let same: bool = match a {
            Some(v) => v == mv,
            None => false,
        };
        if !same {
            preds.push(mv);
        }
    }
    assert(preds@ =~= distinct_predictors(a, b));
    if preds.len() < 2 && temporal_enabled {
        if let Some(mv) = temporal_mv_of(nb, pu, list, ref_poc) {
            preds.push(mv);
        }
    }
    assert(preds@ =~= predictor_list(
        nb,
        *pu,
        list as int,
        ref_poc as int,
        temporal_enabled,
        target_lt,
    ));
    let p0: Mv = if preds.len() > 0 {
        preds[0]
    } else {
        Mv::default()
    };
    let p1: Mv = if preds.len() > 1 {
        preds[1]
    } else {
        Mv::default()
    };
    [p0, p1]
}

proof fn lemma_long_term_absent(refs: Seq<RefEntry>, ref_poc: int, k: int)
    requires
        0 <= k,
    ensures
        (forall|i: int| k <= i < refs.len() ==> (#[trigger] refs[i]).poc != ref_poc)
            ==> !long_term_of(refs, ref_poc, k),
    decreases refs.len() - k,
{
    if k < refs.len() {
        lemma_long_term_absent(refs, ref_poc, k + 1);
    }
}

/// Spatial predictors do not repeat each other: with two of them in the list, they differ.
pub proof fn spatial_predictors_differ<N: Neighbors>(
    nb: &N,
    pu: PuGeom,
    list: int,
    ref_poc: int,
    target_lt: bool,
)
    ensures
        ({
            let (a, b) = spatial_predictors(nb, pu, list, ref_poc, target_lt);
            let s = distinct_predictors(a, b);
            s.len() == 2 ==> s[0] != s[1]
        }),
{
}

/// A neighbour left of the unit that points at the target picture in the list asked for is the
/// first predictor, unchanged.
pub proof fn left_neighbour_comes_first<N: Neighbors>(
    nb: &N,
    pu: PuGeom,
    list: int,
    ref_poc: int,
    temporal_enabled: bool,
    target_lt: bool,
)
    requires
        pu.wf(),
        0 <= list < 2,
        inter_motion(nb, pu, pu.x - 1, pu.y + pu.h) matches Some(m) && m.uses(list)
            && m.ref_poc@[list] == ref_poc,
    ensures
        predictor(nb, pu, list, ref_poc, temporal_enabled, target_lt, 0) == inter_motion(
            nb,
            pu,
            pu.x - 1,
            pu.y + pu.h,
        )->0.mv@[list],
{
    reveal_with_fuel(first_mv, 2);
}

/// A vector is scaled by the ratio of two distances, in steps. The distances are limited to 8 bits.
/// `inv` is 16384 over the distance of the vector, to the nearest; `f` is that times the wanted
/// distance in units of 64, to the nearest and limited to 13 bits.
pub proof fn scale_factors_are_ratios(
    col_dist: int,
    cur_dist: int,
    td: int,
    tb: int,
    inv: int,
    f: int,
)
    requires
        col_dist != 0,
        nearest_in(td, col_dist, -128, 127),
        nearest_in(tb, cur_dist, -128, 127),
        td > 0 ==> nearest(inv, 16384, td),
        td < 0 ==> nearest(-inv, 16384, -td),
        nearest(f, tb * inv, 64),
    ensures
        nearest_in(scale_factor(col_dist, cur_dist), f, -4096, 4095),
{
    lemma_p2_values();
    let a = abs_int(td);
    let m = (16384 + a / 2) / a;
    let i = if td > 0 {
        inv
    } else {
        -inv
    };
    vstd::arithmetic::div_mod::lemma_fundamental_div_mod(16384 + a / 2, a);
    let r = (16384 + a / 2) % a;
    assert(m == i) by (nonlinear_arith)
        requires
            16384 + a / 2 == a * m + r,
            0 <= r < a,
            (2 * i - 1) * a <= 32768 < (2 * i + 1) * a,
            a > 0,
    ;
    lemma_asr_nearest(f, tb * inv, 6);
}

/// `v` is `t`, or the nearer bound if it lies outside the bounds.
pub open spec fn nearest_in(v: int, t: int, lo: int, hi: int) -> bool {
    &&& lo <= t <= hi ==> v == t
    &&& t < lo ==> v == lo
    &&& t > hi ==> v == hi
}

/// Each component of a scaled vector is its product with the factor in units of 256, to the
/// nearest, halves towards zero, and limited to 16 bits. Without a distance a vector is taken as it
/// is.
pub proof fn vectors_are_scaled_by_component(mv: Mv, col_dist: int, cur_dist: int, x: int, y: int)
    requires
        ({
            let p = scale_factor(col_dist, cur_dist) * mv.x;
            let q = scale_factor(col_dist, cur_dist) * mv.y;
            &&& p >= 0 ==> 0 <= x && 256 * x - 128 < p <= 256 * x + 128
            &&& p < 0 ==> x <= 0 && 256 * x - 128 <= p < 256 * x + 128
            &&& q >= 0 ==> 0 <= y && 256 * y - 128 < q <= 256 * y + 128
            &&& q < 0 ==> y <= 0 && 256 * y - 128 <= q < 256 * y + 128
        }),
    ensures
        col_dist != 0 ==> nearest_in(scaled(mv, col_dist, cur_dist).x as int, x, -32768, 32767),
        col_dist != 0 ==> nearest_in(scaled(mv, col_dist, cur_dist).y as int, y, -32768, 32767),
        col_dist == 0 ==> scaled(mv, col_dist, cur_dist) == mv,
{
    lemma_p2_values();
}

/// The five neighbours that a merge list is drawn from, by their coordinates: below on the left,
/// right above, beyond it to the right, beyond the first downwards, and at the corner.
pub open spec fn merge_neighbour<N: Neighbors>(nb: &N, pu: PuGeom, i: int) -> Option<Cand> {
    if i == 0 {
        spatial_cand(nb, pu, pu.x - 1, pu.y + pu.h - 1, SpatialPos::A1)
    } else if i == 1 {
        spatial_cand(nb, pu, pu.x + pu.w - 1, pu.y - 1, SpatialPos::B1)
    } else if i == 2 {
        spatial_cand(nb, pu, pu.x + pu.w, pu.y - 1, SpatialPos::B0)
    } else if i == 3 {
        spatial_cand(nb, pu, pu.x - 1, pu.y + pu.h, SpatialPos::A0)
    } else {
        spatial_cand(nb, pu, pu.x - 1, pu.y - 1, SpatialPos::B2)
    }
}

/// Neighbour `i` enters the list: it is there and repeats none of those it is compared with. The
/// second and fourth are compared with the first, the third with the second, the corner with the
/// first two; the corner is left out where the list has all four others.
pub open spec fn enters<N: Neighbors>(nb: &N, pu: PuGeom, i: int) -> bool {
    let c = merge_neighbour(nb, pu, i);
    &&& c is Some
    &&& i == 1 || i == 3 || i == 4 ==> c != merge_neighbour(nb, pu, 0)
    &&& i == 2 || i == 4 ==> c != merge_neighbour(nb, pu, 1)
    &&& i == 4 ==> !(enters_first_four(nb, pu, 0) && enters_first_four(nb, pu, 1)
        && enters_first_four(nb, pu, 2) && enters_first_four(nb, pu, 3))
}

/// As `enters`, for the neighbours before the corner.
pub open spec fn enters_first_four<N: Neighbors>(nb: &N, pu: PuGeom, i: int) -> bool {
    let c = merge_neighbour(nb, pu, i);
    &&& c is Some
    &&& i == 1 || i == 3 ==> c != merge_neighbour(nb, pu, 0)
    &&& i == 2 ==> c != merge_neighbour(nb, pu, 1)
}

/// How many of the first `i` neighbours enter the list.
pub open spec fn entered<N: Neighbors>(nb: &N, pu: PuGeom, i: int) -> int
    decreases i,
{
    if i <= 0 {
        0
    } else {
        entered(nb, pu, i - 1) + if enters(nb, pu, i - 1) {
            1int
        } else {
            0
        }
    }
}

/// The spatial part of a merge list is the neighbours that enter it, in their order.
pub proof fn merge_neighbours_keep_their_order<N: Neighbors>(
    nb: &N,
    pu: PuGeom,
    max_cand: int,
    i: int,
)
    requires
        max_cand >= 5,
        0 <= i < 5,
    ensures
        spatial_list(nb, pu, max_cand).len() == entered(nb, pu, 5),
        enters(nb, pu, i) ==> spatial_list(nb, pu, max_cand)[entered(nb, pu, i)]
            == merge_neighbour(nb, pu, i)->0,
{
    reveal_with_fuel(entered, 7);
    assert(i == 0 || i == 1 || i == 2 || i == 3 || i == 4);
}

/// A neighbour is a candidate where it was predicted from other pictures, unless it lies in the
/// same square of `2^level` samples, which is merged in parallel, or would undo the split of the
/// block.
pub proof fn neighbours_outside_the_region_are_candidates<N: Neighbors>(
    nb: &N,
    pu: PuGeom,
    x: int,
    y: int,
    pos: SpatialPos,
    i: int,
    j: int,
    k: int,
    l: int,
)
    requires
        floor_over(i, pu.x as int, p2(pu.par_mrg_level as int)),
        floor_over(j, pu.y as int, p2(pu.par_mrg_level as int)),
        floor_over(k, x, p2(pu.par_mrg_level as int)),
        floor_over(l, y, p2(pu.par_mrg_level as int)),
    ensures
        ({
            let halves_across = pu.w < pu.cu_w && pu.h == pu.cu_h;
            let halves_down = pu.h < pu.cu_h && pu.w == pu.cu_w;
            let undoes = pu.part_idx == 1 && (pos is A1 && halves_across || pos is B1
                && halves_down);
            let parallel = x >= 0 && y >= 0 && i == k && j == l;
            spatial_cand(nb, pu, x, y, pos) == match nb.motion(x, y) {
                Some(m) => if m.is_intra || undoes || parallel || !usable(nb, pu, x, y) {
                    None
                } else {
                    Some(
                        Cand {
                            pred: m.pred,
                            mv0: m.mv@[0],
                            mv1: m.mv@[1],
                            idx0: m.ref_idx@[0] as int,
                            idx1: m.ref_idx@[1] as int,
                        },
                    )
                },
                None => None,
            }
        }),
{
    let level = pu.par_mrg_level as int;
    lemma_asr_is_floor(i, pu.x as int, level);
    lemma_asr_is_floor(j, pu.y as int, level);
    lemma_asr_is_floor(k, x, level);
    lemma_asr_is_floor(l, y, level);
}

/// Positions left of or above the picture are not usable. Those outside the coding block are if
/// they were decoded before; those inside are, but for the quarter below the second one.
pub proof fn usable_positions_were_decoded<N: Neighbors>(nb: &N, pu: PuGeom, x: int, y: int)
    ensures
        ({
            let inside = pu.cu_x <= x < pu.cu_x + pu.cu_w && pu.cu_y <= y < pu.cu_y + pu.cu_h;
            let quarters = 2 * pu.w == pu.cu_w && 2 * pu.h == pu.cu_h;
            &&& x < 0 || y < 0 ==> !usable(nb, pu, x, y)
            &&& x >= 0 && y >= 0 && !inside ==> usable(nb, pu, x, y) == nb.reachable(x, y)
            &&& inside ==> usable(nb, pu, x, y) == !(quarters && pu.part_idx == 1 && y >= pu.cu_y
                + pu.h && x < pu.cu_x + pu.w)
        }),
{
}

/// Collocated motion comes from the sample below and right of the unit if that lies in the same row
/// of coding-tree blocks and has any, else from the middle of the unit.
pub proof fn temporal_motion_is_sought_in_two_places<N: Neighbors>(
    nb: &N,
    pu: PuGeom,
    list: int,
    ref_poc: int,
    i: int,
    j: int,
)
    requires
        floor_over(i, pu.y as int, p2(nb.ctb_bits())),
        floor_over(j, pu.y + pu.h, p2(nb.ctb_bits())),
    ensures
        ({
            let corner = nb.collocated(pu.x + pu.w, pu.y + pu.h, list, ref_poc, nb.poc());
            let middle = nb.collocated(
                pu.x + pu.w as int / 2,
                pu.y + pu.h as int / 2,
                list,
                ref_poc,
                nb.poc(),
            );
            temporal_mv(nb, pu, list, ref_poc) == if i == j && corner is Some {
                corner
            } else {
                middle
            }
        }),
{
    lemma_asr_is_floor(i, pu.y as int, nb.ctb_bits());
    lemma_asr_is_floor(j, pu.y + pu.h, nb.ctb_bits());
}

/// A temporal candidate points at the first entry of each list for which there is collocated
/// motion; only slices that may use two lists look for the second.
pub proof fn temporal_candidates_use_the_first_references<N: Neighbors>(
    nb: &N,
    pu: PuGeom,
    list0: Seq<RefEntry>,
    list1: Seq<RefEntry>,
    poc0: int,
    poc1: int,
)
    requires
        poc0 == if list0.len() > 0 {
            list0[0].poc as int
        } else {
            nb.poc()
        },
        poc1 == if list1.len() > 0 {
            list1[0].poc as int
        } else {
            nb.poc()
        },
    ensures
        ({
            let m0 = temporal_mv(nb, pu, 0, poc0);
            let m1 = temporal_mv(nb, pu, 1, poc1);
            let c = temporal_cand(nb, pu, list0, list1);
            let second = pu.is_b && m1 is Some;
            &&& c is None <==> m0 is None && !second
            &&& c is Some ==> {
                &&& c->0.pred == (PredFlags { l0: m0 is Some, l1: second })
                &&& m0 is Some ==> c->0.mv0 == m0->0 && c->0.idx0 == 0
                &&& m0 is None ==> c->0.mv0 == (Mv { x: 0, y: 0 }) && c->0.idx0 == -1
                &&& second ==> c->0.mv1 == m1->0 && c->0.idx1 == 0
                &&& !second ==> c->0.mv1 == (Mv { x: 0, y: 0 }) && c->0.idx1 == -1
            }
        }),
{
}

/// The temporal candidate comes behind the spatial ones, if there is room.
pub proof fn temporal_candidates_come_last<N: Neighbors>(
    nb: &N,
    pu: PuGeom,
    max_cand: int,
    temporal_enabled: bool,
    list0: Seq<RefEntry>,
    list1: Seq<RefEntry>,
)
    ensures
        ({
            let s = spatial_list(nb, pu, max_cand);
            let c = temporal_cand(nb, pu, list0, list1);
            let t = with_temporal(nb, pu, max_cand, temporal_enabled, list0, list1);
            if temporal_enabled && c is Some && s.len() < max_cand {
                t == s.push(c->0)
            } else {
                t == s
            }
        }),
{
}

/// The order in which two candidates are combined.
pub open spec fn combination_order() -> Seq<(int, int)> {
    seq![
        (0, 1),
        (1, 0),
        (0, 2),
        (2, 0),
        (1, 2),
        (2, 1),
        (0, 3),
        (3, 0),
        (1, 3),
        (3, 1),
        (2, 3),
        (3, 2),
    ]
}

/// Combinations come in their order. Each takes the first list of one candidate and the second list
/// of the other, if they have them and do not say the same.
pub proof fn candidates_are_combined_in_order(
    s: Seq<Cand>,
    max_cand: int,
    list0: Seq<RefEntry>,
    list1: Seq<RefEntry>,
    n: int,
    k: int,
)
    requires
        2 <= n <= 4,
        n <= s.len() < max_cand,
        0 <= k < n * (n - 1),
    ensures
        k < 12,
        ({
            let a = s[combination_order()[k].0];
            let b = s[combination_order()[k].1];
            let same = poc_at(list0, a.idx0) == poc_at(list1, b.idx1) && a.mv0 == b.mv1;
            let next = if a.pred.l0 && b.pred.l1 && !same {
                s.push(
                    Cand {
                        pred: PredFlags { l0: true, l1: true },
                        mv0: a.mv0,
                        mv1: b.mv1,
                        idx0: a.idx0,
                        idx1: b.idx1,
                    },
                )
            } else {
                s
            };
            combine_from(s, max_cand, list0, list1, n, k) == combine_from(
                next,
                max_cand,
                list0,
                list1,
                n,
                k + 1,
            )
        }),
{
    assert(n * (n - 1) <= 12) by (nonlinear_arith)
        requires
            2 <= n <= 4,
    ;
    if n == 2 {
        assert(k < 2);
    } else if n == 3 {
        assert(k < 6);
    }
    assert(k == 0 || k == 1 || k == 2 || k == 3 || k == 4 || k == 5 || k == 6 || k == 7 || k == 8
        || k == 9 || k == 10 || k == 11);
    assert(combination(k) == combination_order()[k]);
}

/// Candidates are combined if there are at least two and room for more. Combining ends when the
/// list is full or every pair was tried.
pub proof fn combining_ends(
    s: Seq<Cand>,
    max_cand: int,
    list0: Seq<RefEntry>,
    list1: Seq<RefEntry>,
    n: int,
    k: int,
)
    ensures
        s.len() >= max_cand || k >= n * (n - 1) ==> combine_from(s, max_cand, list0, list1, n, k)
            == s,
        s.len() < 2 || s.len() >= max_cand ==> with_combined(s, max_cand, list0, list1) == s,
        2 <= s.len() < max_cand ==> with_combined(s, max_cand, list0, list1) == combine_from(
            s,
            max_cand,
            list0,
            list1,
            s.len() as int,
            0,
        ),
{
}

/// The rest of a merge list is filled with zero vectors, on each reference picture in turn and then
/// on the first.
pub proof fn zero_candidates_fill_the_list(
    s: Seq<Cand>,
    max_cand: int,
    is_b: bool,
    n0: int,
    n1: int,
    i: int,
)
    requires
        n0 > 0,
        is_b ==> n1 > 0,
        s.len() <= i < max_cand,
        max_cand <= s.len() + 33,
    ensures
        ({
            let t = with_zeros(s, max_cand, is_b, n0, n1);
            let shared = if is_b && n1 < n0 {
                n1
            } else {
                n0
            };
            let r = if i - s.len() < shared {
                i - s.len()
            } else {
                0
            };
            &&& t.len() == max_cand
            &&& t[i].pred == (PredFlags { l0: true, l1: is_b })
            &&& t[i].mv0 == (Mv { x: 0, y: 0 })
            &&& t[i].mv1 == (Mv { x: 0, y: 0 })
            &&& t[i].idx0 == r
            &&& t[i].idx1 == if is_b {
                r
            } else {
                -1
            }
        }),
        with_zeros(s, max_cand, false, 0, n1) == s,
{
    let shared = if is_b {
        min_int(n0, n1)
    } else {
        n0
    };
    lemma_zeros_fill(s, s.len() as int, max_cand, is_b, shared, 0, i);
}

proof fn lemma_zeros_fill(
    s: Seq<Cand>,
    start: int,
    max_cand: int,
    is_b: bool,
    num_ref: int,
    z: int,
    i: int,
)
    requires
        0 <= start,
        0 <= z,
        start + z == s.len(),
        s.len() <= max_cand <= start + 33,
        start <= i < max_cand,
        i < s.len() ==> s[i] == zero_at(is_b, if i - start < num_ref {
            i - start
        } else {
            0
        }),
    ensures
        zeros_from(s, max_cand, is_b, num_ref, z).len() == max_cand,
        zeros_from(s, max_cand, is_b, num_ref, z)[i] == zero_at(is_b, if i - start < num_ref {
            i - start
        } else {
            0
        }),
    decreases 33 - z,
{
    if s.len() < max_cand {
        let r = if z < num_ref {
            z
        } else {
            0
        };
        let t = s.push(zero_at(is_b, r));
        if i < s.len() {
            assert(t[i] == s[i]);
        } else if i == s.len() {
            assert(z == i - start);
            assert(t[i] == zero_at(is_b, r));
        }
        lemma_zeros_fill(
            t,
            start,
            max_cand,
            is_b,
            num_ref,
            z + 1,
            i,
        );
    }
}

/// A merge list is made in four steps: neighbours, collocated motion, combinations in slices that
/// may use two lists, zero vectors. The current picture does not count as a reference for the last.
pub proof fn merge_lists_are_made_in_steps<N: Neighbors>(
    nb: &N,
    pu: PuGeom,
    max_cand: int,
    temporal_enabled: bool,
    list0: Seq<RefEntry>,
    list1: Seq<RefEntry>,
    n0: int,
)
    requires
        !pu.curr_pic_ref ==> n0 == list0.len(),
        pu.curr_pic_ref && list0.len() > 0 ==> n0 == list0.len() - 1,
        pu.curr_pic_ref && list0.len() == 0 ==> n0 == 0,
    ensures
        ({
            let s = with_temporal(nb, pu, max_cand, temporal_enabled, list0, list1);
            let m = merge_list(nb, pu, max_cand, temporal_enabled, list0, list1);
            let n1 = list1.len() as int;
            &&& pu.is_b ==> m == with_zeros(
                with_combined(s, max_cand, list0, list1),
                max_cand,
                true,
                n0,
                n1,
            )
            &&& !pu.is_b ==> m == with_zeros(s, max_cand, false, n0, n1)
        }),
{
}

/// The left neighbours of a vector predictor are the one below the left column and the last one of
/// it; those above are the one right of the row above, the last one of it, and the corner.
pub proof fn predictor_neighbours_are_fixed(pu: PuGeom)
    requires
        pu.wf(),
    ensures
        left_group(pu).len() == 2,
        left_group(pu)[0].0 == pu.x - 1 && left_group(pu)[0].1 == pu.y + pu.h,
        left_group(pu)[1].0 == pu.x - 1 && left_group(pu)[1].1 == pu.y + pu.h - 1,
        above_group(pu).len() == 3,
        above_group(pu)[0].0 == pu.x + pu.w && above_group(pu)[0].1 == pu.y - 1,
        above_group(pu)[1].0 == pu.x + pu.w - 1 && above_group(pu)[1].1 == pu.y - 1,
        above_group(pu)[2].0 == pu.x - 1 && above_group(pu)[2].1 == pu.y - 1,
{
}

/// A group gives the vector of its first neighbour that has one, and none if no neighbour has.
pub proof fn groups_give_their_first_vector<N: Neighbors>(
    nb: &N,
    pu: PuGeom,
    positions: Seq<(isize, isize)>,
    list: int,
    ref_poc: int,
    same_ref: bool,
    target_lt: bool,
    j: int,
)
    requires
        0 <= j <= positions.len(),
        forall|i: int|
            0 <= i < j ==> position_mv(
                nb,
                pu,
                #[trigger] positions[i],
                list,
                ref_poc,
                same_ref,
                target_lt,
            ) is None,
        j < positions.len() ==> position_mv(
            nb,
            pu,
            positions[j],
            list,
            ref_poc,
            same_ref,
            target_lt,
        ) is Some,
    ensures
        first_mv(nb, pu, positions, list, ref_poc, same_ref, target_lt, 0) == if j
            < positions.len() {
            position_mv(nb, pu, positions[j], list, ref_poc, same_ref, target_lt)
        } else {
            None
        },
{
    lemma_first_mv(nb, pu, positions, list, ref_poc, same_ref, target_lt, 0, j);
}

proof fn lemma_first_mv<N: Neighbors>(
    nb: &N,
    pu: PuGeom,
    positions: Seq<(isize, isize)>,
    list: int,
    ref_poc: int,
    same_ref: bool,
    target_lt: bool,
    k: int,
    j: int,
)
    requires
        0 <= k <= j <= positions.len(),
        forall|i: int|
            0 <= i < j ==> position_mv(
                nb,
                pu,
                #[trigger] positions[i],
                list,
                ref_poc,
                same_ref,
                target_lt,
            ) is None,
        j < positions.len() ==> position_mv(
            nb,
            pu,
            positions[j],
            list,
            ref_poc,
            same_ref,
            target_lt,
        ) is Some,
    ensures
        first_mv(nb, pu, positions, list, ref_poc, same_ref, target_lt, k) == if j
            < positions.len() {
            position_mv(nb, pu, positions[j], list, ref_poc, same_ref, target_lt)
        } else {
            None
        },
    decreases j - k,
{
    if k < j {
        assert(position_mv(nb, pu, positions[k], list, ref_poc, same_ref, target_lt) is None);
        lemma_first_mv(nb, pu, positions, list, ref_poc, same_ref, target_lt, k + 1, j);
    }
}

/// A neighbour gives the vector that points at the wanted picture, from the wanted list if it can.
/// In the second round it gives a vector to any picture of the same kind, scaled by distance if
/// neither is a long-term picture.
pub proof fn neighbours_give_the_nearest_vector<N: Neighbors>(
    nb: &N,
    pu: PuGeom,
    p: (isize, isize),
    list: int,
    ref_poc: int,
    target_lt: bool,
    m: MotionInfo,
)
    requires
        list == 0 || list == 1,
        usable(nb, pu, p.0 as int, p.1 as int),
        nb.motion(p.0 as int, p.1 as int) == Some(m),
        !m.is_intra,
    ensures
        ({
            let other = 1 - list;
            let has = |l: int|
                if l == 0 {
                    m.pred.l0
                } else {
                    m.pred.l1
                };
            let first = position_mv(nb, pu, p, list, ref_poc, true, target_lt);
            let second = position_mv(nb, pu, p, list, ref_poc, false, target_lt);
            let at = |l: int|
                if target_lt {
                    m.mv@[l]
                } else {
                    scaled(m.mv@[l], nb.poc() - m.ref_poc@[l], nb.poc() - ref_poc)
                };
            &&& has(list) && m.ref_poc@[list] == ref_poc ==> first == Some(m.mv@[list])
            &&& !(has(list) && m.ref_poc@[list] == ref_poc) && has(other) && m.ref_poc@[other]
                == ref_poc ==> first == Some(m.mv@[other])
            &&& !(has(list) && m.ref_poc@[list] == ref_poc) && !(has(other) && m.ref_poc@[other]
                == ref_poc) ==> first is None
            &&& has(list) && m.ref_lt@[list] == target_lt ==> second == Some(at(list))
            &&& !(has(list) && m.ref_lt@[list] == target_lt) && has(other) && m.ref_lt@[other]
                == target_lt ==> second == Some(at(other))
            &&& !(has(list) && m.ref_lt@[list] == target_lt) && !(has(other) && m.ref_lt@[other]
                == target_lt) ==> second is None
        }),
{
}

/// Neighbours that are not usable, have no motion or are predicted inside the picture give no
/// vector.
pub proof fn other_neighbours_give_no_vector<N: Neighbors>(
    nb: &N,
    pu: PuGeom,
    p: (isize, isize),
    list: int,
    ref_poc: int,
    same_ref: bool,
    target_lt: bool,
)
    requires
        match nb.motion(p.0 as int, p.1 as int) {
            Some(m) => m.is_intra || !usable(nb, pu, p.0 as int, p.1 as int),
            None => true,
        },
    ensures
        position_mv(nb, pu, p, list, ref_poc, same_ref, target_lt) is None,
{
}

/// The first predictor comes from the left, from a vector to the wanted picture if there is one;
/// the second from above. Without any motion on the left, both come from above, the second scaled.
pub proof fn predictors_come_from_left_and_above<N: Neighbors>(
    nb: &N,
    pu: PuGeom,
    list: int,
    ref_poc: int,
    target_lt: bool,
)
    ensures
        ({
            let left = first_mv(nb, pu, left_group(pu), list, ref_poc, true, target_lt, 0);
            let left_scaled = first_mv(nb, pu, left_group(pu), list, ref_poc, false, target_lt, 0);
            let above = first_mv(nb, pu, above_group(pu), list, ref_poc, true, target_lt, 0);
            let above_scaled = first_mv(
                nb,
                pu,
                above_group(pu),
                list,
                ref_poc,
                false,
                target_lt,
                0,
            );
            let moving = inter_motion(nb, pu, pu.x - 1, pu.y + pu.h) is Some || inter_motion(
                nb,
                pu,
                pu.x - 1,
                pu.y + pu.h - 1,
            ) is Some;
            let (a, b) = spatial_predictors(nb, pu, list, ref_poc, target_lt);
            &&& moving && left is Some ==> a == left
            &&& moving && left is None ==> a == left_scaled
            &&& moving ==> b == above
            &&& !moving ==> a == above && b == above_scaled
        }),
{
}

/// A list of predictors has the spatial ones without repeats, then the temporal one if there are
/// less than two, then zero vectors.
pub proof fn predictor_lists_are_filled_up<N: Neighbors>(
    nb: &N,
    pu: PuGeom,
    list: int,
    ref_poc: int,
    temporal_enabled: bool,
    target_lt: bool,
)
    ensures
        ({
            let (a, b) = spatial_predictors(nb, pu, list, ref_poc, target_lt);
            let t = if temporal_enabled {
                temporal_mv(nb, pu, list, ref_poc)
            } else {
                None
            };
            let zero = Mv { x: 0, y: 0 };
            let first = predictor(nb, pu, list, ref_poc, temporal_enabled, target_lt, 0);
            let second = predictor(nb, pu, list, ref_poc, temporal_enabled, target_lt, 1);
            let one = if a is Some {
                a
            } else {
                b
            };
            &&& a is Some && b is Some && a != b ==> first == a->0 && second == b->0
            &&& one is Some && !(a is Some && b is Some && a != b) ==> first == one->0 && second
                == (if t is Some {
                t->0
            } else {
                zero
            })
            &&& one is None ==> second == zero && first == (if t is Some {
                t->0
            } else {
                zero
            })
        }),
{
}

/// A picture is of the kind of the first entry of the list with its number.
pub proof fn long_term_goes_by_the_first_entry(refs: Seq<RefEntry>, ref_poc: int, k: int, j: int)
    requires
        0 <= k <= j <= refs.len(),
        forall|i: int| k <= i < j ==> (#[trigger] refs[i]).poc != ref_poc,
        j < refs.len() ==> refs[j].poc == ref_poc,
    ensures
        long_term_of(refs, ref_poc, k) == (j < refs.len() && refs[j].long_term),
    decreases j - k,
{
    if k < j {
        assert(refs[k].poc != ref_poc);
        long_term_goes_by_the_first_entry(refs, ref_poc, k + 1, j);
    }
}

} // verus!
