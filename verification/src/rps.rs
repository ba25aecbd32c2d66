//! Reference picture sets and picture order counts.
use vstd::prelude::*;
use crate::arith::{lemma_p2_pos, wrap_i32, wrap_to_i32};
use crate::bitreader::{bit, exp_golomb, exp_golomb_values_are_ordered_by_length, BitReader};
use crate::error::DecodeError;

verus! {

/// A short-term reference picture set: distances to earlier and to later pictures, and whether the
/// current picture refers to each.
#[derive(Clone, Debug)]
pub struct ShortTermRps {
    /// Distances to earlier pictures, nearest first.
    pub delta_poc_s0: Vec<i32>,
    pub used_s0: Vec<bool>,
    /// Distances to later pictures, nearest first.
    pub delta_poc_s1: Vec<i32>,
    pub used_s1: Vec<bool>,
}

/// Distances with their use flags.
#[verifier::ext_equal]
pub struct Deltas {
    pub delta: Seq<i32>,
    pub used: Seq<bool>,
}

/// What a reference picture set holds.
#[verifier::ext_equal]
pub struct Rps {
    pub before: Deltas,
    pub after: Deltas,
}

impl View for ShortTermRps {
    type V = Rps;

    open spec fn view(&self) -> Rps {
        Rps {
            before: Deltas { delta: self.delta_poc_s0@, used: self.used_s0@ },
            after: Deltas { delta: self.delta_poc_s1@, used: self.used_s1@ },
        }
    }
}

impl Default for ShortTermRps {
    fn default() -> (r: Self)
        ensures
            r@.before == Deltas::none(),
            r@.after == Deltas::none(),
    {
        ShortTermRps {
            delta_poc_s0: Vec::new(),
            used_s0: Vec::new(),
            delta_poc_s1: Vec::new(),
            used_s1: Vec::new(),
        }
    }
}

impl Deltas {
    pub open spec fn none() -> Deltas {
        Deltas { delta: Seq::empty(), used: Seq::empty() }
    }

    pub open spec fn with(self, d: i32, u: bool) -> Deltas {
        Deltas { delta: self.delta.push(d), used: self.used.push(u) }
    }
}

impl ShortTermRps {
    /// Number of earlier pictures.
    pub fn num_negative(&self) -> (r: usize)
        ensures
            r == self.delta_poc_s0@.len(),
    {
        self.delta_poc_s0.len()
    }

    /// Number of later pictures.
    pub fn num_positive(&self) -> (r: usize)
        ensures
            r == self.delta_poc_s1@.len(),
    {
        self.delta_poc_s1.len()
    }

    /// Number of pictures.
    pub fn num_delta_pocs(&self) -> (r: usize)
        requires
            self.delta_poc_s0@.len() + self.delta_poc_s1@.len() <= usize::MAX,
        ensures
            r == self.delta_poc_s0@.len() + self.delta_poc_s1@.len(),
    {
        self.num_negative() + self.num_positive()
    }
}

pub open spec fn failure<T>(what: &'static str) -> Result<T, DecodeError> {
    Err(DecodeError::Bitstream(what))
}

fn fail<T>(what: &'static str) -> (r: Result<T, DecodeError>)
    ensures
        r == failure::<T>(what),
{
    Err(DecodeError::Bitstream(what))
}

/// The distances of an explicit set, read on until there are `count`: each is one more than its
/// code away from the one before.
pub open spec fn explicit_deltas(
    data: Seq<u8>,
    pos: int,
    out: Deltas,
    count: int,
    earlier: bool,
) -> Result<(Deltas, int), DecodeError>
    decreases count - out.delta.len(),
{
    if out.delta.len() >= count {
        Ok((out, pos))
    } else {
        match exp_golomb(data, pos) {
            None => failure(
                if earlier {
                    "delta_poc_s0_minus1"
                } else {
                    "delta_poc_s1_minus1"
                },
            ),
            Some((v, p)) => if p >= 8 * data.len() {
                failure(
                    if earlier {
                        "used_by_curr_s0"
                    } else {
                        "used_by_curr_s1"
                    },
                )
            } else {
                let prev = if out.delta.len() == 0 {
                    0
                } else {
                    out.delta.last() as int
                };
                let d = wrap_i32(
                    if earlier {
                        prev - (v + 1)
                    } else {
                        prev + (v + 1)
                    },
                );
                explicit_deltas(
                    data,
                    p + 1,
                    out.with(d as i32, bit(data, p) == 1),
                    count,
                    earlier,
                )
            },
        }
    }
}

/// An explicit set at `pos`, and the position after it.
pub open spec fn explicit_rps(data: Seq<u8>, pos: int) -> Result<(Rps, int), DecodeError> {
    match exp_golomb(data, pos) {
        None => failure("num_negative_pics"),
        Some((n0, p0)) => match exp_golomb(data, p0) {
            None => failure("num_positive_pics"),
            Some((n1, p1)) => match explicit_deltas(data, p1, Deltas::none(), n0, true) {
                Err(e) => Err(e),
                Ok((before, p2)) => match explicit_deltas(data, p2, Deltas::none(), n1, false) {
                    Err(e) => Err(e),
                    Ok((after, p3)) => Ok((Rps { before, after }, p3)),
                },
            },
        },
    }
}

/// The flags of a predicted set, read on until there are `count`: whether each picture is used, and
/// if not, whether it is kept.
pub open spec fn keep_flags(
    data: Seq<u8>,
    pos: int,
    used: Seq<bool>,
    kept: Seq<bool>,
    count: int,
) -> Result<(Seq<bool>, Seq<bool>, int), DecodeError>
    decreases count - used.len(),
{
    if used.len() >= count {
        Ok((used, kept, pos))
    } else if pos >= 8 * data.len() {
        failure("used_by_curr_pic_flag")
    } else if bit(data, pos) == 1 {
        keep_flags(data, pos + 1, used.push(true), kept.push(true), count)
    } else if pos + 1 >= 8 * data.len() {
        failure("use_delta_flag")
    } else {
        keep_flags(data, pos + 2, used.push(false), kept.push(bit(data, pos + 1) == 1), count)
    }
}

/// The candidates of a predicted set in the order of their distances, with the number of the flag
/// that decides on each: all pictures of the source set and its own picture, moved by `delta`.
/// Flags stand for the earlier pictures, then the later ones, then the own picture. The order goes
/// from later to earlier pictures, or the other way.
pub open spec fn candidate(src: Rps, delta: int, earlier: bool, k: int) -> (int, int) {
    let n0 = src.before.delta.len();
    let n1 = src.after.delta.len();
    let j = if earlier {
        n0 + n1 - k
    } else {
        k
    };
    // Position `j` counts from the earliest picture on.
    if j < n0 {
        (wrap_i32(src.before.delta[n0 - 1 - j] + delta), n0 - 1 - j)
    } else if j == n0 {
        (delta, (n0 + n1) as int)
    } else {
        (wrap_i32(src.after.delta[j - n0 - 1] + delta), j - 1)
    }
}

/// Whether flag number `i` keeps its picture.
pub open spec fn keeps(used: Seq<bool>, kept: Seq<bool>, i: int) -> bool {
    (i < used.len() && used[i]) || (i < kept.len() && kept[i])
}

/// The candidates before number `k` that lie on the right side and are kept.
pub open spec fn predicted_deltas(
    src: Rps,
    delta: int,
    used: Seq<bool>,
    kept: Seq<bool>,
    earlier: bool,
    k: int,
) -> Deltas
    decreases k,
{
    if k <= 0 {
        Deltas::none()
    } else {
        let out = predicted_deltas(src, delta, used, kept, earlier, k - 1);
        let (d, i) = candidate(src, delta, earlier, k - 1);
        if (if earlier {
            d < 0
        } else {
            d > 0
        }) && keeps(used, kept, i) {
            out.with(d as i32, i < used.len() && used[i])
        } else {
            out
        }
    }
}

/// A set predicted from another.
pub open spec fn predicted_rps(src: Rps, delta: int, used: Seq<bool>, kept: Seq<bool>) -> Rps {
    let n = src.before.delta.len() + src.after.delta.len() + 1;
    Rps {
        before: predicted_deltas(src, delta, used, kept, true, n as int),
        after: predicted_deltas(src, delta, used, kept, false, n as int),
    }
}

/// How far back the source of a predicted set lies, and the position after that: in a slice header
/// it is coded, in a sequence it is the set before.
pub open spec fn source_distance(data: Seq<u8>, pos: int, coded: bool) -> Option<(int, int)> {
    if coded {
        match exp_golomb(data, pos) {
            Some((v, p)) => Some((v + 1, p)),
            None => None,
        }
    } else {
        Some((1, pos))
    }
}

/// A predicted set at `pos`, and the position after it.
pub open spec fn coded_prediction(
    data: Seq<u8>,
    pos: int,
    idx: int,
    num_sets: int,
    sets: Seq<ShortTermRps>,
) -> Result<(Rps, int), DecodeError> {
    match source_distance(data, pos, idx == num_sets) {
        None => failure("delta_idx_minus1"),
        Some((back, p0)) => if back > idx {
            failure("delta_idx out of range")
        } else if idx - back >= sets.len() {
            failure("ref rps missing")
        } else if p0 >= 8 * data.len() {
            failure("delta_rps_sign")
        } else {
            match exp_golomb(data, p0 + 1) {
                None => failure("abs_delta_rps_minus1"),
                Some((v, p1)) => {
                    let src = sets[idx - back]@;
                    let magnitude = wrap_i32(v + 1);
                    let delta = wrap_i32(
                        if bit(data, p0) == 1 {
                            -magnitude
                        } else {
                            magnitude
                        },
                    );
                    let n = src.before.delta.len() + src.after.delta.len() + 1;
                    match keep_flags(data, p1, Seq::empty(), Seq::empty(), n as int) {
                        Err(e) => Err(e),
                        Ok((used, kept, p2)) => Ok((predicted_rps(src, delta, used, kept), p2)),
                    }
                },
            }
        },
    }
}

/// The reference picture set number `idx` at `pos`, and the position after it. Every set but the
/// first says whether it is predicted.
pub open spec fn coded_rps(
    data: Seq<u8>,
    pos: int,
    idx: int,
    num_sets: int,
    sets: Seq<ShortTermRps>,
) -> Result<(Rps, int), DecodeError> {
    if idx == 0 {
        explicit_rps(data, pos)
    } else if pos >= 8 * data.len() {
        failure("inter_ref_pic_set_pred")
    } else if bit(data, pos) == 1 {
        coded_prediction(data, pos + 1, idx, num_sets, sets)
    } else {
        explicit_rps(data, pos + 1)
    }
}

fn push_delta(delta: &mut Vec<i32>, used: &mut Vec<bool>, d: i32, u: bool)
    ensures
        (Deltas { delta: final(delta)@, used: final(used)@ }) == (Deltas {
            delta: old(delta)@,
            used: old(used)@,
        }).with(d, u),
{
    delta.push(d);
    used.push(u);
}

fn parse_explicit_deltas(r: &mut BitReader, count: usize, earlier: bool) -> (out: Result<
    (Vec<i32>, Vec<bool>),
    DecodeError,
>)
    requires
        old(r).wf(),
    ensures
        final(r).wf(),
        final(r).data@ == old(r).data@,
        match explicit_deltas(old(r).data@, old(r).pos(), Deltas::none(), count as int, earlier) {
            Ok((d, p)) => out matches Ok(t) && d == (Deltas { delta: t.0@, used: t.1@ })
                && final(r).pos() == p,
            Err(e) => out == Err::<(Vec<i32>, Vec<bool>), DecodeError>(e),
        },
{
    let mut delta: Vec<i32> = Vec::new();
    let mut used: Vec<bool> = Vec::new();
    let mut prev: i32 = 0;
    let mut i: usize = 0;
    assert(Deltas { delta: delta@, used: used@ } =~= Deltas::none());
    while i < count
        invariant
            r.wf(),
            r.data@ == old(r).data@,
            i <= count,
            delta@.len() == i,
            prev == if i == 0 {
                0
            } else {
                delta@.last() as int
            },
            explicit_deltas(old(r).data@, old(r).pos(), Deltas::none(), count as int, earlier)
                == explicit_deltas(
                r.data@,
                r.pos(),
                Deltas { delta: delta@, used: used@ },
                count as int,
                earlier,
            ),
        decreases count - i,
    {
        let code: u32 = match r.read_ue() {
            Ok(v) => v,
            Err(_) => return fail(
                if earlier {
                    "delta_poc_s0_minus1"
                } else {
                    "delta_poc_s1_minus1"
                },
            ),
        };
        let u: bool = match r.read_flag() {
            Ok(u) => u,
            Err(_) => return fail(
                if earlier {
                    "used_by_curr_s0"
                } else {
                    "used_by_curr_s1"
                },
            ),
        };
        let step: i64 = code as i64 + 1;
        prev =
        wrap_to_i32(
            if earlier {
                prev as i64 - step
            } else {
                prev as i64 + step
            },
        );
        push_delta(&mut delta, &mut used, prev, u);
        i = i + 1;
    }
    Ok((delta, used))
}

fn parse_explicit_rps(r: &mut BitReader) -> (out: Result<ShortTermRps, DecodeError>)
    requires
        old(r).wf(),
    ensures
        final(r).wf(),
        final(r).data@ == old(r).data@,
        match explicit_rps(old(r).data@, old(r).pos()) {
            Ok((s, p)) => out matches Ok(t) && t@ == s && final(r).pos() == p,
            Err(e) => out == Err::<ShortTermRps, DecodeError>(e),
        },
{
    let num_neg: usize = match r.read_ue() {
        Ok(v) => v as usize,
        Err(_) => return fail("num_negative_pics"),
    };
    let num_pos: usize = match r.read_ue() {
        Ok(v) => v as usize,
        Err(_) => return fail("num_positive_pics"),
    };
    let (delta_poc_s0, used_s0): (Vec<i32>, Vec<bool>) = match parse_explicit_deltas(
        r,
        num_neg,
        true,
    ) {
        Ok(t) => t,
        Err(e) => return Err(e),
    };
    let (delta_poc_s1, used_s1): (Vec<i32>, Vec<bool>) = match parse_explicit_deltas(
        r,
        num_pos,
        false,
    ) {
        Ok(t) => t,
        Err(e) => return Err(e),
    };
    Ok(ShortTermRps { delta_poc_s0, used_s0, delta_poc_s1, used_s1 })
}

fn parse_keep_flags(r: &mut BitReader, count: usize) -> (out: Result<
    (Vec<bool>, Vec<bool>),
    DecodeError,
>)
    requires
        old(r).wf(),
    ensures
        final(r).wf(),
        final(r).data@ == old(r).data@,
        match keep_flags(old(r).data@, old(r).pos(), Seq::empty(), Seq::empty(), count as int) {
            Ok((used, kept, p)) => out matches Ok(t) && t.0@ == used && t.1@ == kept
                && final(r).pos() == p,
            Err(e) => out == Err::<(Vec<bool>, Vec<bool>), DecodeError>(e),
        },
{
    let mut used: Vec<bool> = Vec::new();
    let mut kept: Vec<bool> = Vec::new();
    let mut i: usize = 0;
    assert(used@ =~= Seq::<bool>::empty());
    assert(kept@ =~= Seq::<bool>::empty());
    while i < count
        invariant
            r.wf(),
            r.data@ == old(r).data@,
            i <= count,
            used@.len() == i,
            keep_flags(old(r).data@, old(r).pos(), Seq::empty(), Seq::empty(), count as int)
                == keep_flags(r.data@, r.pos(), used@, kept@, count as int),
        decreases count - i,
    {
        let u: bool = match r.read_flag() {
            Ok(u) => u,
            Err(_) => return fail("used_by_curr_pic_flag"),
        };
        let k: bool = if u {
            true
        } else {
            match r.read_flag() {
                Ok(k) => k,
                Err(_) => return fail("use_delta_flag"),
            }
        };
        used.push(u);
        kept.push(k);
        i = i + 1;
    }
    Ok((used, kept))
}

/// Whether flag number `idx` keeps its picture.
fn used_or_use(used: &[bool], use_delta: &[bool], idx: usize) -> (r: bool)
    ensures
        r == keeps(used@, use_delta@, idx as int),
{
    (idx < used.len() && used[idx]) || (idx < use_delta.len() && use_delta[idx])
}

fn candidate_of(src: &ShortTermRps, delta_rps: i32, earlier: bool, k: usize) -> (r: (i32, usize))
    requires
        src.delta_poc_s0@.len() + src.delta_poc_s1@.len() < usize::MAX,
        k <= src.delta_poc_s0@.len() + src.delta_poc_s1@.len(),
    ensures
        (r.0 as int, r.1 as int) == candidate(src@, delta_rps as int, earlier, k as int),
{
    let n0: usize = src.num_negative();
    let n1: usize = src.num_positive();
    let j: usize = if earlier {
        n0 + n1 - k
    } else {
        k
    };
    if j < n0 {
        let i: usize = n0 - 1 - j;
        (wrap_to_i32(src.delta_poc_s0[i] as i64 + delta_rps as i64), i)
    } else if j == n0 {
        (delta_rps, n0 + n1)
    } else {
        (wrap_to_i32(src.delta_poc_s1[j - n0 - 1] as i64 + delta_rps as i64), j - 1)
    }
}

fn derive_side(
    src: &ShortTermRps,
    delta_rps: i32,
    used: &[bool],
    use_delta: &[bool],
    earlier: bool,
) -> (r: (Vec<i32>, Vec<bool>))
    requires
        src.delta_poc_s0@.len() + src.delta_poc_s1@.len() < usize::MAX,
    ensures
        (Deltas { delta: r.0@, used: r.1@ }) == predicted_deltas(
            src@,
            delta_rps as int,
            used@,
            use_delta@,
            earlier,
            (src.delta_poc_s0@.len() + src.delta_poc_s1@.len() + 1) as int,
        ),
{
    let n: usize = src.num_delta_pocs() + 1;
    let mut delta: Vec<i32> = Vec::new();
    let mut flags: Vec<bool> = Vec::new();
    let mut k: usize = 0;
    assert(Deltas { delta: delta@, used: flags@ } =~= Deltas::none());
    while k < n
        invariant
            n == src.delta_poc_s0@.len() + src.delta_poc_s1@.len() + 1,
            n <= usize::MAX,
            k <= n,
            (Deltas { delta: delta@, used: flags@ }) == predicted_deltas(
                src@,
                delta_rps as int,
                used@,
                use_delta@,
                earlier,
                k as int,
            ),
        decreases n - k,
    {
        let (dpoc, uidx): (i32, usize) = candidate_of(src, delta_rps, earlier, k);
        let side: bool = if earlier {
            dpoc < 0
        } else {
            dpoc > 0
        };
        if side && used_or_use(used, use_delta, uidx) {
            let u: bool = uidx < used.len() && used[uidx];
            push_delta(&mut delta, &mut flags, dpoc, u);
        }
        k = k + 1;
    }
    (delta, flags)
}

/// Derives a set from another one.
pub fn derive_inter_rps(
    src: &ShortTermRps,
    delta_rps: i32,
    used: &[bool],
    use_delta: &[bool],
) -> (r: ShortTermRps)
    requires
        src.delta_poc_s0@.len() + src.delta_poc_s1@.len() < usize::MAX,
    ensures
        r@ == predicted_rps(src@, delta_rps as int, used@, use_delta@),
{
    let (delta_poc_s0, used_s0): (Vec<i32>, Vec<bool>) = derive_side(
        src,
        delta_rps,
        used,
        use_delta,
        true,
    );
    let (delta_poc_s1, used_s1): (Vec<i32>, Vec<bool>) = derive_side(
        src,
        delta_rps,
        used,
        use_delta,
        false,
    );
    ShortTermRps { delta_poc_s0, used_s0, delta_poc_s1, used_s1 }
}

/// Parses reference picture set number `idx`. `sets` holds the sets parsed before it, `num_sets` is
/// the number of sets of the sequence: the set of that number belongs to a slice.
pub fn parse_short_term_rps(
    r: &mut BitReader,
    idx: usize,
    num_sets: usize,
    sets: &[ShortTermRps],
) -> (out: Result<ShortTermRps, DecodeError>)
    requires
        old(r).wf(),
        forall|i: int|
            0 <= i < sets@.len() ==> (#[trigger] sets@[i]).delta_poc_s0@.len()
                + sets@[i].delta_poc_s1@.len() < usize::MAX,
    ensures
        final(r).wf(),
        final(r).data@ == old(r).data@,
        match coded_rps(old(r).data@, old(r).pos(), idx as int, num_sets as int, sets@) {
            Ok((s, p)) => out matches Ok(t) && t@ == s && final(r).pos() == p,
            Err(e) => out == Err::<ShortTermRps, DecodeError>(e),
        },
{
    if idx == 0 {
        return parse_explicit_rps(r);
    }
    let inter_pred: bool = match r.read_flag() {
        Ok(b) => b,
        Err(_) => return fail("inter_ref_pic_set_pred"),
    };
    if !inter_pred {
        return parse_explicit_rps(r);
    }
    let back_minus1: usize = if idx == num_sets {
        match r.read_ue() {
            Ok(v) => v as usize,
            Err(_) => return fail("delta_idx_minus1"),
        }
    } else {
        0
    };
    if back_minus1 >= idx {
        return fail("delta_idx out of range");
    }
    let ref_rps_idx: usize = idx - back_minus1 - 1;
    if ref_rps_idx >= sets.len() {
        return fail("ref rps missing");
    }
    let src: &ShortTermRps = &sets[ref_rps_idx];
    let sign: u32 = match r.read_bit() {
        Ok(b) => b,
        Err(_) => return fail("delta_rps_sign"),
    };
    let code: u32 = match r.read_ue() {
        Ok(v) => v,
        Err(_) => return fail("abs_delta_rps_minus1"),
    };
    let magnitude: i32 = wrap_to_i32(code as i64 + 1);
    let delta_rps: i32 = wrap_to_i32(
        if sign == 1 {
            -(magnitude as i64)
        } else {
            magnitude as i64
        },
    );
    assert(sets@[ref_rps_idx as int] == *src);
    let n: usize = src.num_delta_pocs() + 1;
    let (used, use_delta): (Vec<bool>, Vec<bool>) = match parse_keep_flags(r, n) {
        Ok(t) => t,
        Err(e) => return Err(e),
    };
    Ok(derive_inter_rps(src, delta_rps, used.as_slice(), use_delta.as_slice()))
}

/// The picture order count of a slice: the value with the coded low bits that is nearest to the
/// count of the previous picture; a picture that starts a sequence has only low bits.
pub open spec fn poc(poc_lsb: int, prev_poc: int, max_lsb: int, starts: bool) -> int {
    let prev_lsb = prev_poc % max_lsb;
    let prev_msb = prev_poc - prev_lsb;
    if starts {
        poc_lsb
    } else if poc_lsb < prev_lsb && prev_lsb - poc_lsb >= max_lsb / 2 {
        prev_msb + max_lsb + poc_lsb
    } else if poc_lsb > prev_lsb && poc_lsb - prev_lsb > max_lsb / 2 {
        prev_msb - max_lsb + poc_lsb
    } else {
        prev_msb + poc_lsb
    }
}

/// Derives the picture order count of a slice.
pub fn derive_poc(poc_lsb: i32, prev_poc: i32, max_poc_lsb: i32, is_irap_no_rasl: bool) -> (r: i32)
    requires
        !is_irap_no_rasl ==> max_poc_lsb > 0,
        i32::MIN <= poc(poc_lsb as int, prev_poc as int, max_poc_lsb as int, is_irap_no_rasl)
            <= i32::MAX,
    ensures
        r == poc(poc_lsb as int, prev_poc as int, max_poc_lsb as int, is_irap_no_rasl),
{
    if is_irap_no_rasl {
        return poc_lsb;
    }
    let max: i64 = max_poc_lsb as i64;
    let prev: i64 = prev_poc as i64;
    let lsb: i64 = poc_lsb as i64;
    let rem: i64 = prev % max;
    proof {
        if prev < 0 {
            vstd::arithmetic::div_mod::lemma_fundamental_div_mod(prev as int, max as int);
            vstd::arithmetic::div_mod::lemma_fundamental_div_mod((-prev) as int, max as int);
            let q = (-prev) as int / max as int;
            let m = (-prev) as int % max as int;
            if m == 0 {
                assert(prev == max * (-q) + 0) by (nonlinear_arith)
                    requires
                        -prev == max * q + m,
                        m == 0,
                ;
                vstd::arithmetic::div_mod::lemma_fundamental_div_mod_converse(
                    prev as int,
                    max as int,
                    -q,
                    0,
                );
            } else {
                assert(prev == max * (-q - 1) + (max - m)) by (nonlinear_arith)
                    requires
                        -prev == max * q + m,
                ;
                vstd::arithmetic::div_mod::lemma_fundamental_div_mod_converse(
                    prev as int,
                    max as int,
                    -q - 1,
                    max - m,
                );
            }
        }
    }
    let prev_lsb: i64 = if rem < 0 {
        rem + max
    } else {
        rem
    };
    assert(prev_lsb == prev_poc as int % max_poc_lsb as int);
    let prev_msb: i64 = prev - prev_lsb;
    let msb: i64 = if lsb < prev_lsb && prev_lsb - lsb >= max / 2 {
        prev_msb + max
    } else if lsb > prev_lsb && lsb - prev_lsb > max / 2 {
        prev_msb - max
    } else {
        prev_msb
    };
    (msb + lsb) as i32
}

/// The picture order count has the coded low bits, and of all such values it is the one in the
/// window of `max_lsb` values around the previous count.
pub proof fn poc_is_nearest(poc_lsb: int, prev_poc: int, max_lsb: int)
    requires
        max_lsb > 0,
        max_lsb % 2 == 0,
        0 <= poc_lsb < max_lsb,
    ensures
        poc(poc_lsb, prev_poc, max_lsb, false) % max_lsb == poc_lsb,
        prev_poc - max_lsb / 2 < poc(poc_lsb, prev_poc, max_lsb, false) <= prev_poc + max_lsb / 2,
{
    let p = poc(poc_lsb, prev_poc, max_lsb, false);
    vstd::arithmetic::div_mod::lemma_fundamental_div_mod(prev_poc, max_lsb);
    let q = prev_poc / max_lsb;
    let k = if p == prev_poc - prev_poc % max_lsb + poc_lsb {
        q
    } else if p == prev_poc - prev_poc % max_lsb + max_lsb + poc_lsb {
        q + 1
    } else {
        q - 1
    };
    assert(max_lsb * (q + 1) == max_lsb * q + max_lsb) by (nonlinear_arith);
    assert(max_lsb * (q - 1) == max_lsb * q - max_lsb) by (nonlinear_arith);
    assert(p == k * max_lsb + poc_lsb) by (nonlinear_arith)
        requires
            p == max_lsb * k + poc_lsb,
    ;
    vstd::arithmetic::div_mod::lemma_fundamental_div_mod_converse(p, max_lsb, k, poc_lsb);
}

/// The distances of a set are nearest first: earlier pictures have falling negative distances,
/// later ones rising positive distances.
pub open spec fn is_ordered(s: Rps) -> bool {
    &&& forall|i: int| 0 <= i < s.before.delta.len() ==> s.before.delta[i] < 0
    &&& forall|i: int| 0 <= i < s.after.delta.len() ==> s.after.delta[i] > 0
    &&& forall|i: int, j: int|
        0 <= i < j < s.before.delta.len() ==> s.before.delta[i] > s.before.delta[j]
    &&& forall|i: int, j: int|
        0 <= i < j < s.after.delta.len() ==> s.after.delta[i] < s.after.delta[j]
}

/// No distance of a set leaves its range when it is moved by `delta`.
pub open spec fn moves_freely(s: Rps, delta: int) -> bool {
    &&& i32::MIN <= delta <= i32::MAX
    &&& forall|i: int|
        0 <= i < s.before.delta.len() ==> i32::MIN <= (#[trigger] s.before.delta[i]) + delta
            <= i32::MAX
    &&& forall|i: int|
        0 <= i < s.after.delta.len() ==> i32::MIN <= (#[trigger] s.after.delta[i]) + delta
            <= i32::MAX
}

/// A set that is predicted from an ordered one is ordered.
pub proof fn prediction_keeps_order(src: Rps, delta: int, used: Seq<bool>, kept: Seq<bool>)
    requires
        is_ordered(src),
        moves_freely(src, delta),
    ensures
        is_ordered(predicted_rps(src, delta, used, kept)),
{
    let n = src.before.delta.len() + src.after.delta.len() + 1;
    lemma_side_ordered(src, delta, used, kept, true, n as int);
    lemma_side_ordered(src, delta, used, kept, false, n as int);
}

/// Candidates are strictly ordered.
proof fn lemma_candidates_ordered(src: Rps, delta: int, earlier: bool, a: int, b: int)
    requires
        is_ordered(src),
        moves_freely(src, delta),
        0 <= a < b <= src.before.delta.len() + src.after.delta.len(),
    ensures
        if earlier {
            candidate(src, delta, earlier, a).0 > candidate(src, delta, earlier, b).0
        } else {
            candidate(src, delta, earlier, a).0 < candidate(src, delta, earlier, b).0
        },
        i32::MIN <= candidate(src, delta, earlier, a).0 <= i32::MAX,
        i32::MIN <= candidate(src, delta, earlier, b).0 <= i32::MAX,
{
}

proof fn lemma_side_ordered(
    src: Rps,
    delta: int,
    used: Seq<bool>,
    kept: Seq<bool>,
    earlier: bool,
    k: int,
)
    requires
        is_ordered(src),
        moves_freely(src, delta),
        0 <= k <= src.before.delta.len() + src.after.delta.len() + 1,
    ensures
        ({
            let s = predicted_deltas(src, delta, used, kept, earlier, k).delta;
            &&& forall|i: int|
                0 <= i < s.len() ==> if earlier {
                    s[i] < 0
                } else {
                    s[i] > 0
                }
            &&& forall|i: int, j: int|
                0 <= i < j < s.len() ==> if earlier {
                    s[i] > s[j]
                } else {
                    s[i] < s[j]
                }
            &&& forall|i: int|
                0 <= i < s.len() && k <= src.before.delta.len() + src.after.delta.len() ==> if earlier {
                    s[i] > candidate(src, delta, earlier, k).0
                } else {
                    s[i] < candidate(src, delta, earlier, k).0
                }
        }),
    decreases k,
{
    if k > 0 {
        lemma_side_ordered(src, delta, used, kept, earlier, k - 1);
        if k <= src.before.delta.len() + src.after.delta.len() {
            lemma_candidates_ordered(src, delta, earlier, k - 1, k);
        } else if k - 1 > 0 {
            lemma_candidates_ordered(src, delta, earlier, k - 2, k - 1);
        }
        let s0 = predicted_deltas(src, delta, used, kept, earlier, k - 1).delta;
        let s = predicted_deltas(src, delta, used, kept, earlier, k).delta;
        let d = candidate(src, delta, earlier, k - 1).0;
        assert(i32::MIN <= d <= i32::MAX);
        assert(s == s0 || (s == s0.push(d as i32) && if earlier {
            d < 0
        } else {
            d > 0
        }));
    }
}

/// How far `count` explicit distances reach.
pub open spec fn explicit_reach(data: Seq<u8>, pos: int, count: int) -> int
    decreases count,
{
    if count <= 0 {
        0
    } else {
        match exp_golomb(data, pos) {
            None => 0,
            Some((v, p)) => v + 1 + explicit_reach(data, p + 1, count - 1),
        }
    }
}

/// An explicit set whose distances can be held in 32 bits: on neither side do they reach further.
pub open spec fn reaches_little(data: Seq<u8>, pos: int) -> bool {
    match exp_golomb(data, pos) {
        None => true,
        Some((n0, p0)) => match exp_golomb(data, p0) {
            None => true,
            Some((n1, p1)) => {
                &&& explicit_reach(data, p1, n0) <= i32::MAX
                &&& match explicit_deltas(data, p1, Deltas::none(), n0, true) {
                    Err(_) => true,
                    Ok((_, p2)) => explicit_reach(data, p2, n1) <= i32::MAX,
                }
            },
        },
    }
}

/// An explicit set is ordered.
pub proof fn explicit_sets_are_ordered(data: Seq<u8>, pos: int, set: Rps, end: int)
    requires
        explicit_rps(data, pos) == Ok::<(Rps, int), DecodeError>((set, end)),
        reaches_little(data, pos),
    ensures
        is_ordered(set),
{
    let (n0, p0) = exp_golomb(data, pos)->0;
    let (n1, p1) = exp_golomb(data, p0)->0;
    let (before, p2) = explicit_deltas(data, p1, Deltas::none(), n0, true)->Ok_0;
    lemma_explicit_ordered(data, p1, Deltas::none(), n0, true);
    lemma_explicit_ordered(data, p2, Deltas::none(), n1, false);
}

/// One side of a set is ordered.
spec fn side_ordered(d: Seq<i32>, earlier: bool) -> bool {
    &&& forall|i: int|
        0 <= i < d.len() ==> if earlier {
            #[trigger] d[i] < 0
        } else {
            d[i] > 0
        }
    &&& forall|i: int, j: int|
        0 <= i < j < d.len() ==> if earlier {
            #[trigger] d[i] > #[trigger] d[j]
        } else {
            d[i] < d[j]
        }
}

proof fn lemma_explicit_ordered(data: Seq<u8>, pos: int, out: Deltas, count: int, earlier: bool)
    requires
        side_ordered(out.delta, earlier),
        explicit_deltas(data, pos, out, count, earlier) is Ok,
        ({
            let reach = explicit_reach(data, pos, count - out.delta.len());
            let last = if out.delta.len() == 0 {
                0
            } else {
                out.delta.last() as int
            };
            if earlier {
                last - reach >= i32::MIN
            } else {
                last + reach <= i32::MAX
            }
        }),
    ensures
        side_ordered(explicit_deltas(data, pos, out, count, earlier)->Ok_0.0.delta, earlier),
    decreases count - out.delta.len(),
{
    if out.delta.len() < count {
        let (v, p) = exp_golomb(data, pos)->0;
        let prev = if out.delta.len() == 0 {
            0
        } else {
            out.delta.last() as int
        };
        let d = if earlier {
            prev - (v + 1)
        } else {
            prev + (v + 1)
        };
        lemma_reach_positive(data, p + 1, count - out.delta.len() - 1);
        lemma_code_positive(data, pos);
        assert(wrap_i32(d) == d);
        lemma_explicit_ordered(data, p + 1, out.with(d as i32, bit(data, p) == 1), count, earlier);
    }
}

proof fn lemma_code_positive(data: Seq<u8>, pos: int)
    ensures
        exp_golomb(data, pos) matches Some((v, _)) ==> v >= 0,
{
    exp_golomb_values_are_ordered_by_length(data, pos);
    if let Some((_, end)) = exp_golomb(data, pos) {
        lemma_p2_pos((end - pos - 1) / 2);
    }
}

proof fn lemma_reach_positive(data: Seq<u8>, pos: int, count: int)
    ensures
        explicit_reach(data, pos, count) >= 0,
    decreases count,
{
    if count > 0 {
        lemma_code_positive(data, pos);
        if let Some((v, p)) = exp_golomb(data, pos) {
            lemma_reach_positive(data, p + 1, count - 1);
        }
    }
}

/// The signed 32-bit number with the low bits of `v`.
pub open spec fn low_32_bits(v: int) -> int {
    let m = v % 0x1_0000_0000;
    if m < 0x8000_0000 {
        m
    } else {
        m - 0x1_0000_0000
    }
}

proof fn lemma_low_32_bits(v: int)
    ensures
        low_32_bits(v) == wrap_i32(v),
{
}

proof fn lemma_low_32_bits_twice(v: int)
    ensures
        wrap_i32(wrap_i32(v)) == wrap_i32(v),
        wrap_i32(-wrap_i32(v)) == wrap_i32(-v),
{
}

/// Picture `i` of the source set, as the predicted set counts it: first the earlier pictures, then
/// the later ones, then the picture of the source itself. Distances are kept to 32 bits.
pub open spec fn moved_picture(src: Rps, delta: int, i: int) -> int {
    if i < src.before.delta.len() {
        low_32_bits(src.before.delta[i] + delta)
    } else if i < src.before.delta.len() + src.after.delta.len() {
        low_32_bits(src.after.delta[i - src.before.delta.len()] + delta)
    } else {
        delta
    }
}

/// Picture `i` of the source is kept if its flag says that it is used or only kept.
pub open spec fn is_kept(used: Seq<bool>, kept: Seq<bool>, i: int) -> bool {
    (i < used.len() && used[i]) || (i < kept.len() && kept[i])
}

/// Entry `k` of a list of pictures is picture `d` and has mark `i` of use.
pub open spec fn lists(s: Deltas, k: int, d: int, used: Seq<bool>, i: int) -> bool {
    0 <= k < s.delta.len() && s.delta[k] == d && s.used[k] == (i < used.len() && used[i])
}

/// A predicted set has every picture of its source that is kept, moved by `delta`, on the side
/// where it then lies, with its mark of use.
pub proof fn prediction_keeps_the_kept(
    src: Rps,
    delta: int,
    used: Seq<bool>,
    kept: Seq<bool>,
    i: int,
)
    requires
        i32::MIN <= delta <= i32::MAX,
        0 <= i <= src.before.delta.len() + src.after.delta.len(),
        is_kept(used, kept, i),
    ensures
        ({
            let d = moved_picture(src, delta, i);
            let s = predicted_rps(src, delta, used, kept);
            &&& d < 0 ==> exists|k: int| #[trigger] lists(s.before, k, d, used, i)
            &&& d > 0 ==> exists|k: int| #[trigger] lists(s.after, k, d, used, i)
        }),
{
    let (n0, n1) = (src.before.delta.len() as int, src.after.delta.len() as int);
    let n = n0 + n1 + 1;
    let j = if i < n0 {
        n0 - 1 - i
    } else if i < n0 + n1 {
        i + 1
    } else {
        n0
    };
    assert(candidate(src, delta, false, j) == (moved_picture(src, delta, i), i));
    assert(candidate(src, delta, true, n0 + n1 - j) == (moved_picture(src, delta, i), i));
    lemma_candidate_is_listed(src, delta, used, kept, false, j, n);
    lemma_candidate_is_listed(src, delta, used, kept, true, n0 + n1 - j, n);
    let d = moved_picture(src, delta, i);
    let s = predicted_rps(src, delta, used, kept);
    assert(i32::MIN <= d <= i32::MAX);
    if d < 0 {
        let k = choose|k: int| #[trigger] lists(s.before, k, d, used, i);
        assert(lists(s.before, k, d, used, i));
    } else if d > 0 {
        let k = choose|k: int| #[trigger] lists(s.after, k, d, used, i);
        assert(lists(s.after, k, d, used, i));
    }
}

proof fn lemma_candidate_is_listed(
    src: Rps,
    delta: int,
    used: Seq<bool>,
    kept: Seq<bool>,
    earlier: bool,
    j: int,
    k: int,
)
    requires
        0 <= j < k,
    ensures
        ({
            let (d, i) = candidate(src, delta, earlier, j);
            let s = predicted_deltas(src, delta, used, kept, earlier, k);
            &&& s.delta.len() == s.used.len()
            &&& i32::MIN <= d <= i32::MAX && is_kept(used, kept, i) && (if earlier {
                d < 0
            } else {
                d > 0
            }) ==> exists|e: int| #[trigger] lists(s, e, d, used, i)
        }),
    decreases k,
{
    lemma_lists_match(src, delta, used, kept, earlier, k - 1);
    let (d, i) = candidate(src, delta, earlier, j);
    let t = predicted_deltas(src, delta, used, kept, earlier, k - 1);
    let s = predicted_deltas(src, delta, used, kept, earlier, k);
    if j < k - 1 {
        lemma_candidate_is_listed(src, delta, used, kept, earlier, j, k - 1);
        if exists|e: int| #[trigger] lists(t, e, d, used, i) {
            let e = choose|e: int| #[trigger] lists(t, e, d, used, i);
            assert(lists(s, e, d, used, i));
        }
    } else if i32::MIN <= d <= i32::MAX && is_kept(used, kept, i) && (if earlier {
        d < 0
    } else {
        d > 0
    }) {
        assert(keeps(used, kept, i));
        assert(s == t.with(d as i32, i < used.len() && used[i]));
        assert(lists(s, t.delta.len() as int, d, used, i));
    }
}

proof fn lemma_lists_match(
    src: Rps,
    delta: int,
    used: Seq<bool>,
    kept: Seq<bool>,
    earlier: bool,
    k: int,
)
    ensures
        predicted_deltas(src, delta, used, kept, earlier, k).delta.len() == predicted_deltas(
            src,
            delta,
            used,
            kept,
            earlier,
            k,
        ).used.len(),
    decreases k,
{
    if k > 0 {
        lemma_lists_match(src, delta, used, kept, earlier, k - 1);
    }
}

/// A predicted set has no other pictures.
pub proof fn prediction_adds_nothing(
    src: Rps,
    delta: int,
    used: Seq<bool>,
    kept: Seq<bool>,
    earlier: bool,
    k: int,
)
    requires
        i32::MIN <= delta <= i32::MAX,
        0 <= k,
        k < (if earlier {
            predicted_rps(src, delta, used, kept).before.delta.len()
        } else {
            predicted_rps(src, delta, used, kept).after.delta.len()
        }),
    ensures
        ({
            let s = if earlier {
                predicted_rps(src, delta, used, kept).before
            } else {
                predicted_rps(src, delta, used, kept).after
            };
            exists|i: int|
                0 <= i <= src.before.delta.len() + src.after.delta.len() && #[trigger] is_kept(
                    used,
                    kept,
                    i,
                ) && s.delta[k] == moved_picture(src, delta, i) && s.used[k] == (i < used.len()
                    && used[i])
        }),
{
    let n = (src.before.delta.len() + src.after.delta.len() + 1) as int;
    lemma_listed_is_candidate(src, delta, used, kept, earlier, n, k);
}

proof fn lemma_listed_is_candidate(
    src: Rps,
    delta: int,
    used: Seq<bool>,
    kept: Seq<bool>,
    earlier: bool,
    n: int,
    k: int,
)
    requires
        i32::MIN <= delta <= i32::MAX,
        0 <= n <= src.before.delta.len() + src.after.delta.len() + 1,
        0 <= k < predicted_deltas(src, delta, used, kept, earlier, n).delta.len(),
    ensures
        ({
            let s = predicted_deltas(src, delta, used, kept, earlier, n);
            exists|i: int|
                0 <= i <= src.before.delta.len() + src.after.delta.len() && #[trigger] is_kept(
                    used,
                    kept,
                    i,
                ) && s.delta[k] == moved_picture(src, delta, i) && s.used[k] == (i < used.len()
                    && used[i])
        }),
    decreases n,
{
    lemma_lists_match(src, delta, used, kept, earlier, n - 1);
    let t = predicted_deltas(src, delta, used, kept, earlier, n - 1);
    if k < t.delta.len() {
        lemma_listed_is_candidate(src, delta, used, kept, earlier, n - 1, k);
        let i = choose|i: int|
            0 <= i <= src.before.delta.len() + src.after.delta.len() && #[trigger] is_kept(
                used,
                kept,
                i,
            ) && t.delta[k] == moved_picture(src, delta, i) && t.used[k] == (i < used.len()
                && used[i]);
        assert(is_kept(used, kept, i));
    } else {
        let (d, i) = candidate(src, delta, earlier, n - 1);
        assert(d == moved_picture(src, delta, i));
        assert(is_kept(used, kept, i));
    }
}

/// Explicit distances add up: each picture lies one more than its code beyond the one before, and a
/// bit behind the code says if it is used.
pub proof fn explicit_distances_add_up(
    data: Seq<u8>,
    pos: int,
    out: Deltas,
    count: int,
    earlier: bool,
    v: int,
    p: int,
    d: int,
)
    requires
        out.delta.len() < count,
        exp_golomb(data, pos) == Some((v, p)),
        p < 8 * data.len(),
        out.delta.len() == 0 && earlier ==> d == low_32_bits(-(v + 1)),
        out.delta.len() == 0 && !earlier ==> d == low_32_bits(v + 1),
        out.delta.len() > 0 && earlier ==> d == low_32_bits(out.delta.last() - (v + 1)),
        out.delta.len() > 0 && !earlier ==> d == low_32_bits(out.delta.last() + (v + 1)),
    ensures
        explicit_deltas(data, pos, out, count, earlier) == explicit_deltas(
            data,
            p + 1,
            (Deltas { delta: out.delta.push(d as i32), used: out.used.push(bit(data, p) == 1) }),
            count,
            earlier,
        ),
{
    let prev = if out.delta.len() == 0 {
        0
    } else {
        out.delta.last() as int
    };
    let x = if earlier {
        prev - (v + 1)
    } else {
        prev + (v + 1)
    };
    assert(d == low_32_bits(x));
    lemma_low_32_bits(x);
    assert(out.with(d as i32, bit(data, p) == 1) == (Deltas {
        delta: out.delta.push(d as i32),
        used: out.used.push(bit(data, p) == 1),
    }));
}

/// Each picture of a source set has a bit that says if it is used, and one that is not used has
/// another that says if it is kept.
pub proof fn keep_flags_are_read_in_turn(
    data: Seq<u8>,
    pos: int,
    used: Seq<bool>,
    kept: Seq<bool>,
    count: int,
)
    requires
        used.len() < count,
        pos + 1 < 8 * data.len(),
    ensures
        bit(data, pos) == 1 ==> keep_flags(data, pos, used, kept, count) == keep_flags(
            data,
            pos + 1,
            used.push(true),
            kept.push(true),
            count,
        ),
        bit(data, pos) != 1 && bit(data, pos + 1) == 1 ==> keep_flags(data, pos, used, kept, count)
            == keep_flags(data, pos + 2, used.push(false), kept.push(true), count),
        bit(data, pos) != 1 && bit(data, pos + 1) != 1 ==> keep_flags(data, pos, used, kept, count)
            == keep_flags(data, pos + 2, used.push(false), kept.push(false), count),
{
}

/// A set of a parameter list that is predicted comes from the set before it, moved by a sign bit
/// and a magnitude of one more than its code; only the set of a slice says which one it comes from.
pub proof fn sets_are_predicted_from_an_earlier_one(
    data: Seq<u8>,
    pos: int,
    idx: int,
    num_sets: int,
    sets: Seq<ShortTermRps>,
    back: int,
    p0: int,
    v: int,
    p1: int,
    used: Seq<bool>,
    kept: Seq<bool>,
    end: int,
)
    requires
        idx != num_sets ==> back == 1 && p0 == pos,
        idx == num_sets ==> exp_golomb(data, pos) == Some((back - 1, p0)),
        back <= idx,
        idx - back < sets.len(),
        p0 < 8 * data.len(),
        exp_golomb(data, p0 + 1) == Some((v, p1)),
        keep_flags(
            data,
            p1,
            Seq::empty(),
            Seq::empty(),
            (sets[idx - back].delta_poc_s0@.len() + sets[idx - back].delta_poc_s1@.len() + 1) as int,
        ) == Ok::<(Seq<bool>, Seq<bool>, int), DecodeError>((used, kept, end)),
    ensures
        coded_prediction(data, pos, idx, num_sets, sets) == Ok::<(Rps, int), DecodeError>(
            (
                predicted_rps(
                    sets[idx - back]@,
                    low_32_bits(
                        if bit(data, p0) == 1 {
                            -(v + 1)
                        } else {
                            v + 1
                        },
                    ),
                    used,
                    kept,
                ),
                end,
            ),
        ),
{
    lemma_low_32_bits_twice(v + 1);
    lemma_low_32_bits(v + 1);
    lemma_low_32_bits(-(v + 1));
    assert(source_distance(data, pos, idx == num_sets) == Some((back, p0)));
}

/// The first set is explicit. Every other one starts with a bit that is set if it is predicted.
pub proof fn sets_say_if_they_are_predicted(
    data: Seq<u8>,
    pos: int,
    idx: int,
    num_sets: int,
    sets: Seq<ShortTermRps>,
)
    requires
        pos < 8 * data.len(),
    ensures
        idx == 0 ==> coded_rps(data, pos, idx, num_sets, sets) == explicit_rps(data, pos),
        idx != 0 && bit(data, pos) == 1 ==> coded_rps(data, pos, idx, num_sets, sets)
            == coded_prediction(data, pos + 1, idx, num_sets, sets),
        idx != 0 && bit(data, pos) != 1 ==> coded_rps(data, pos, idx, num_sets, sets)
            == explicit_rps(data, pos + 1),
{
}

/// An explicit set has as many earlier and later pictures as its first two codes say.
pub proof fn explicit_sets_have_their_counts(data: Seq<u8>, pos: int, set: Rps, end: int)
    requires
        explicit_rps(data, pos) == Ok::<(Rps, int), DecodeError>((set, end)),
    ensures
        exp_golomb(data, pos) matches Some((n0, p0)) && exp_golomb(data, p0) matches Some((n1, _))
            && set.before.delta.len() == n0 && set.after.delta.len() == n1,
{
    let (n0, p0) = exp_golomb(data, pos)->0;
    let (n1, p1) = exp_golomb(data, p0)->0;
    let none = Deltas::none();
    exp_golomb_values_are_ordered_by_length(data, pos);
    exp_golomb_values_are_ordered_by_length(data, p0);
    lemma_p2_pos((p0 - pos - 1) / 2);
    lemma_p2_pos((p1 - p0 - 1) / 2);
    lemma_explicit_count(data, p1, none, n0, true);
    let p = explicit_deltas(data, p1, none, n0, true)->Ok_0.1;
    lemma_explicit_count(data, p, none, n1, false);
}

proof fn lemma_explicit_count(data: Seq<u8>, pos: int, out: Deltas, count: int, earlier: bool)
    requires
        out.delta.len() <= count,
    ensures
        explicit_deltas(data, pos, out, count, earlier) matches Ok((s, _)) ==> s.delta.len() == count,
    decreases count - out.delta.len(),
{
    if out.delta.len() < count {
        if let Some((v, p)) = exp_golomb(data, pos) {
            if p < 8 * data.len() {
                let prev = if out.delta.len() == 0 {
                    0
                } else {
                    out.delta.last() as int
                };
                let d = wrap_i32(
                    if earlier {
                        prev - (v + 1)
                    } else {
                        prev + (v + 1)
                    },
                );
                lemma_explicit_count(
                    data,
                    p + 1,
                    out.with(d as i32, bit(data, p) == 1),
                    count,
                    earlier,
                );
            }
        }
    }
}

/// A picture that starts a sequence counts from its own lower bits.
pub proof fn starting_pictures_count_anew(poc_lsb: int, prev_poc: int, max_lsb: int)
    ensures
        poc(poc_lsb, prev_poc, max_lsb, true) == poc_lsb,
{
}

/// A set that ends early names the part that is missing.
pub proof fn short_sets_name_the_missing_part(
    data: Seq<u8>,
    pos: int,
    idx: int,
    num_sets: int,
    sets: Seq<ShortTermRps>,
    out: Deltas,
    count: int,
    flags: Seq<bool>,
    kept: Seq<bool>,
)
    ensures
        idx != 0 && pos >= 8 * data.len() ==> coded_rps(data, pos, idx, num_sets, sets) == Err::<
            (Rps, int),
            DecodeError,
        >(DecodeError::Bitstream("inter_ref_pic_set_pred")),
        exp_golomb(data, pos) is None ==> explicit_rps(data, pos) == Err::<(Rps, int), DecodeError>(
            DecodeError::Bitstream("num_negative_pics"),
        ),
        exp_golomb(data, pos) is None && out.delta.len() < count ==> explicit_deltas(
            data,
            pos,
            out,
            count,
            true,
        ) == Err::<(Deltas, int), DecodeError>(DecodeError::Bitstream("delta_poc_s0_minus1")),
        exp_golomb(data, pos) is None && out.delta.len() < count ==> explicit_deltas(
            data,
            pos,
            out,
            count,
            false,
        ) == Err::<(Deltas, int), DecodeError>(DecodeError::Bitstream("delta_poc_s1_minus1")),
        pos >= 8 * data.len() && flags.len() < count ==> keep_flags(data, pos, flags, kept, count)
            == Err::<(Seq<bool>, Seq<bool>, int), DecodeError>(
            DecodeError::Bitstream("used_by_curr_pic_flag"),
        ),
        pos + 1 == 8 * data.len() && flags.len() < count && bit(data, pos) != 1 ==> keep_flags(
            data,
            pos,
            flags,
            kept,
            count,
        ) == Err::<(Seq<bool>, Seq<bool>, int), DecodeError>(
            DecodeError::Bitstream("use_delta_flag"),
        ),
        idx == num_sets && exp_golomb(data, pos) is None ==> coded_prediction(
            data,
            pos,
            idx,
            num_sets,
            sets,
        ) == Err::<(Rps, int), DecodeError>(DecodeError::Bitstream("delta_idx_minus1")),
{
}

} // verus!
