//! Reading bits and Exp-Golomb codes, most significant bit first.
use vstd::prelude::*;
use crate::arith::{lemma_p2_mono, lemma_p2_pos, lemma_p2_values, p2, pow2_i64};
use crate::error::DecodeError;

verus! {

/// Bit number `i` of the bytes, as 0 or 1.
pub open spec fn bit(data: Seq<u8>, i: int) -> int {
    (data[i / 8] as int / p2(7 - i % 8)) % 2
}

/// The `n` bits from `pos` on as an integer.
pub open spec fn bits(data: Seq<u8>, pos: int, n: int) -> int
    decreases n,
{
    if n <= 0 {
        0
    } else {
        2 * bits(data, pos, n - 1) + bit(data, pos + n - 1)
    }
}

/// Number of zero bits before the first one bit from `pos` on, added to `k`. There is none if the
/// data end before that, or after 32 zeros.
pub open spec fn zeros(data: Seq<u8>, pos: int, k: int) -> Option<int>
    decreases 32 - k,
{
    if k >= 32 || pos >= 8 * data.len() {
        None
    } else if bit(data, pos) == 1 {
        Some(k)
    } else {
        zeros(data, pos + 1, k + 1)
    }
}

/// The unsigned Exp-Golomb code at `pos`: its value, and the position after it.
pub open spec fn exp_golomb(data: Seq<u8>, pos: int) -> Option<(int, int)> {
    match zeros(data, pos, 0) {
        Some(k) => if pos + 2 * k + 1 <= 8 * data.len() {
            Some((p2(k) - 1 + bits(data, pos + k + 1, k), pos + 2 * k + 1))
        } else {
            None
        },
        None => None,
    }
}

pub proof fn lemma_bits_bound(data: Seq<u8>, pos: int, n: int)
    requires
        n >= 0,
    ensures
        0 <= bits(data, pos, n) < p2(n),
    decreases n,
{
    lemma_p2_values();
    if n > 0 {
        lemma_bits_bound(data, pos, n - 1);
        assert(p2(n) == 2 * p2(n - 1));
    }
}

pub proof fn lemma_zeros_bound(data: Seq<u8>, pos: int, k: int)
    requires
        0 <= k,
    ensures
        zeros(data, pos, k) matches Some(z) ==> k <= z < 32 && pos + z - k < 8 * data.len(),
    decreases 32 - k,
{
    if k < 32 && pos < 8 * data.len() && bit(data, pos) != 1 {
        lemma_zeros_bound(data, pos + 1, k + 1);
    }
}

/// A code determines its value: the values of one prefix length follow each other without gap or
/// overlap.
pub proof fn exp_golomb_values_are_ordered_by_length(data: Seq<u8>, pos: int)
    ensures
        exp_golomb(data, pos) matches Some((v, end)) ==> {
            let k = (end - pos - 1) / 2;
            &&& 0 <= k < 32
            &&& p2(k) - 1 <= v < p2(k + 1) - 1
        },
{
    lemma_zeros_bound(data, pos, 0);
    if let Some(k) = zeros(data, pos, 0) {
        lemma_bits_bound(data, pos + k + 1, k);
        assert(p2(k + 1) == 2 * p2(k));
    }
}

/// A reader at a bit of some bytes.
pub struct BitReader<'a> {
    pub data: &'a [u8],
    /// The current byte.
    pub byte: usize,
    /// The current bit of it, counted from the most significant.
    pub shift: usize,
}

impl<'a> BitReader<'a> {
    pub open spec fn wf(self) -> bool {
        &&& self.shift < 8
        &&& self.byte <= self.data@.len()
        &&& self.byte == self.data@.len() ==> self.shift == 0
    }

    /// Number of bits read.
    pub open spec fn pos(self) -> int {
        8 * self.byte + self.shift
    }

    /// A reader at the start of the data.
    pub fn new(data: &'a [u8]) -> (r: Self)
        ensures
            r.wf(),
            r.data@ == data@,
            r.pos() == 0,
    {
        BitReader { data, byte: 0, shift: 0 }
    }

    /// Reads a bit, which fails at the end of the data.
    pub fn read_bit(&mut self) -> (r: Result<u32, DecodeError>)
        requires
            old(self).wf(),
        ensures
            final(self).wf(),
            final(self).data@ == old(self).data@,
            if old(self).pos() < 8 * old(self).data@.len() {
                &&& r matches Ok(b) && b == bit(old(self).data@, old(self).pos())
                &&& final(self).pos() == old(self).pos() + 1
            } else {
                &&& r == Err::<u32, DecodeError>(DecodeError::Bitstream("unexpected end of data"))
                &&& final(self).pos() == old(self).pos()
            },
    {
        if self.byte >= self.data.len() {
            return Err(DecodeError::Bitstream("unexpected end of data"));
        }
        let shift: u32 = 7 - self.shift as u32;
        proof {
            assert(self.pos() / 8 == self.byte && self.pos() % 8 == self.shift);
            lemma_p2_pos(shift as int);
        }
        let v: i64 = self.data[self.byte] as i64;
        let unit: i64 = pow2_i64(shift);
        proof {
            assert(0 <= v / unit) by (nonlinear_arith)
                requires
                    v >= 0,
                    unit > 0,
            ;
        }
        let b: i64 = (v / unit) % 2;
        if self.shift == 7 {
            self.shift = 0;
            self.byte = self.byte + 1;
        } else {
            self.shift = self.shift + 1;
        }
        Ok(b as u32)
    }

    /// Reads a bit as a flag.
    pub fn read_flag(&mut self) -> (r: Result<bool, DecodeError>)
        requires
            old(self).wf(),
        ensures
            final(self).wf(),
            final(self).data@ == old(self).data@,
            if old(self).pos() < 8 * old(self).data@.len() {
                &&& r matches Ok(b) && b == (bit(old(self).data@, old(self).pos()) == 1)
                &&& final(self).pos() == old(self).pos() + 1
            } else {
                &&& r == Err::<bool, DecodeError>(DecodeError::Bitstream("unexpected end of data"))
                &&& final(self).pos() == old(self).pos()
            },
    {
        match self.read_bit() {
            Ok(b) => Ok(b == 1),
            Err(e) => Err(e),
        }
    }

    /// Reads an unsigned Exp-Golomb code. It fails, and reads nothing, if the data end in it or its
    /// prefix is longer than 31 zeros.
    pub fn read_ue(&mut self) -> (r: Result<u32, DecodeError>)
        requires
            old(self).wf(),
        ensures
            final(self).wf(),
            final(self).data@ == old(self).data@,
            match exp_golomb(old(self).data@, old(self).pos()) {
                Some((v, end)) => r matches Ok(x) && x == v && final(self).pos() == end,
                None => {
                    &&& r == Err::<u32, DecodeError>(DecodeError::Bitstream("bad Exp-Golomb code"))
                    &&& final(self).pos() == old(self).pos()
                },
            },
    {
        let byte0: usize = self.byte;
        let shift0: usize = self.shift;
        let ghost data = self.data@;
        let ghost start = self.pos();
        proof {
            lemma_zeros_bound(data, start, 0);
        }
        let mut k: u32 = 0;
        let mut found: bool = false;
        while k < 32 && !found
            invariant
                self.wf(),
                self.data@ == data,
                data == old(self).data@,
                start == old(self).pos(),
                byte0 <= data.len(),
                shift0 < 8,
                byte0 == data.len() ==> shift0 == 0,
                start == 8 * byte0 + shift0,
                k <= 32,
                !found ==> self.pos() == start + k && zeros(data, start, 0) == zeros(
                    data,
                    start + k,
                    k as int,
                ),
                found ==> k < 32 && self.pos() == start + k + 1 && zeros(data, start, 0) == Some(
                    k as int,
                ),
            decreases
                    32 - k,
                    if found {
                        0int
                    } else {
                        1
                    },
        {
            match self.read_bit() {
                Ok(b) => {
                    if b == 1 {
                        found = true;
                    } else {
                        k = k + 1;
                    }
                },
                Err(_) => {
                    self.byte = byte0;
                    self.shift = shift0;
                    return Err(DecodeError::Bitstream("bad Exp-Golomb code"));
                },
            }
        }
        if !found {
            self.byte = byte0;
            self.shift = shift0;
            return Err(DecodeError::Bitstream("bad Exp-Golomb code"));
        }
        let mut v: u64 = 0;
        let mut i: u32 = 0;
        proof {
            lemma_p2_values();
        }
        while i < k
            invariant
                self.wf(),
                self.data@ == data,
                data == old(self).data@,
                start == old(self).pos(),
                byte0 <= data.len(),
                shift0 < 8,
                byte0 == data.len() ==> shift0 == 0,
                start == 8 * byte0 + shift0,
                zeros(data, start, 0) == Some(k as int),
                k < 32,
                i <= k,
                self.pos() == start + k + 1 + i,
                self.pos() <= 8 * data.len(),
                v == bits(data, start + k + 1, i as int),
            decreases k - i,
        {
            proof {
                lemma_bits_bound(data, start + k + 1, i as int);
                lemma_p2_mono(i as int, 31);
                lemma_p2_values();
            }
            match self.read_bit() {
                Ok(b) => {
                    v = 2 * v + b as u64;
                },
                Err(_) => {
                    self.byte = byte0;
                    self.shift = shift0;
                    return Err(DecodeError::Bitstream("bad Exp-Golomb code"));
                },
            }
            i = i + 1;
        }
        proof {
            lemma_bits_bound(data, start + k + 1, k as int);
            lemma_p2_mono(k as int, 31);
            lemma_p2_pos(k as int);
            lemma_p2_values();
        }
        let base: i64 = pow2_i64(k) - 1;
        Ok((base as u64 + v) as u32)
    }
}

/// Bits come most significant first: eight of them from a byte boundary are the byte.
pub proof fn bits_come_most_significant_first(data: Seq<u8>, i: int)
    requires
        0 <= i < data.len(),
    ensures
        bits(data, 8 * i, 8) == data[i],
{
    lemma_p2_values();
    let b = data[i] as int;
    assert(bits(data, 8 * i, 0) == 0);
    assert(bit(data, 8 * i) == (b / 128) % 2);
    assert(bits(data, 8 * i, 1) == b / 128);
    assert(bit(data, 8 * i + 1) == (b / 64) % 2);
    assert(bits(data, 8 * i, 2) == b / 64);
    assert(bit(data, 8 * i + 2) == (b / 32) % 2);
    assert(bits(data, 8 * i, 3) == b / 32);
    assert(bit(data, 8 * i + 3) == (b / 16) % 2);
    assert(bits(data, 8 * i, 4) == b / 16);
    assert(bit(data, 8 * i + 4) == (b / 8) % 2);
    assert(bits(data, 8 * i, 5) == b / 8);
    assert(bit(data, 8 * i + 5) == (b / 4) % 2);
    assert(bits(data, 8 * i, 6) == b / 4);
    assert(bit(data, 8 * i + 6) == (b / 2) % 2);
    assert(bits(data, 8 * i, 7) == b / 2);
    assert(bit(data, 8 * i + 7) == b % 2);
    assert(bits(data, 8 * i, 8) == b);
}

/// A longer number is the shorter one before it, moved up, and the one behind.
pub proof fn numbers_join(data: Seq<u8>, pos: int, m: int, n: int)
    requires
        0 <= m,
        0 <= n,
    ensures
        bits(data, pos, m + n) == bits(data, pos, m) * p2(n) + bits(data, pos + m, n),
        bits(data, pos, 1) == bit(data, pos),
        0 <= bit(data, pos) <= 1,
    decreases n,
{
    reveal_with_fuel(bits, 2);
    if n > 0 {
        numbers_join(data, pos, m, n - 1);
        let (a, q) = (bits(data, pos, m), p2(n - 1));
        assert(p2(n) == 2 * q);
        assert(2 * (a * q) == a * (2 * q)) by (nonlinear_arith);
    }
}

/// An Exp-Golomb code of value `v` is `v + 1` as a number, with as many zeros before it as it has
/// bits behind its first one.
pub proof fn exp_golomb_codes_hold_the_next_number(data: Seq<u8>, pos: int, k: int, v: int)
    requires
        0 <= pos,
        0 <= k < 32,
        p2(k) <= v + 1 < 2 * p2(k),
        pos + 2 * k + 1 <= 8 * data.len(),
    ensures
        bits(data, pos, 2 * k + 1) == v + 1 <==> exp_golomb(data, pos) == Some(
            (v, pos + 2 * k + 1),
        ),
{
    let d = p2(k);
    let (head, one, tail) = (bits(data, pos, k), bit(data, pos + k), bits(data, pos + k + 1, k));
    lemma_p2_pos(k);
    lemma_bits_bound(data, pos, k);
    lemma_bits_bound(data, pos + k + 1, k);
    numbers_join(data, pos, k, k + 1);
    numbers_join(data, pos + k, 1, k);
    assert(p2(k + 1) == 2 * d);
    assert(bits(data, pos, 2 * k + 1) == head * (2 * d) + one * d + tail);
    if bits(data, pos, 2 * k + 1) == v + 1 {
        assert(head == 0) by (nonlinear_arith)
            requires
                head * (2 * d) + one * d + tail < 2 * d,
                0 <= head,
                0 <= one,
                0 <= tail,
                d >= 1,
        ;
        assert(one == 1) by (nonlinear_arith)
            requires
                head == 0,
                head * (2 * d) + one * d + tail >= d,
                0 <= one <= 1,
                tail < d,
        ;
        lemma_zeros_found(data, pos, k, 0);
        assert(head * (2 * d) + one * d + tail == d + tail) by (nonlinear_arith)
            requires
                head == 0,
                one == 1,
        ;
    }
    if exp_golomb(data, pos) == Some((v, pos + 2 * k + 1)) {
        lemma_zeros_are_zero(data, pos, 0);
        assert(zeros(data, pos, 0) == Some(k));
        assert(head * (2 * d) + one * d + tail == d + tail) by (nonlinear_arith)
            requires
                head == 0,
                one == 1,
        ;
    }
}

proof fn lemma_zeros_found(data: Seq<u8>, pos: int, n: int, k: int)
    requires
        0 <= n,
        0 <= k,
        k + n < 32,
        pos + n < 8 * data.len(),
        bits(data, pos, n) == 0,
        bit(data, pos + n) == 1,
    ensures
        zeros(data, pos, k) == Some(k + n),
    decreases n,
{
    if n > 0 {
        numbers_join(data, pos, 1, n - 1);
        lemma_bits_bound(data, pos + 1, n - 1);
        lemma_p2_pos(n - 1);
        let (b, q) = (bit(data, pos), p2(n - 1));
        assert(b == 0) by (nonlinear_arith)
            requires
                b * q <= 0,
                b >= 0,
                q >= 1,
        ;
        assert(b * q == 0) by (nonlinear_arith)
            requires
                b == 0,
        ;
        lemma_zeros_found(data, pos + 1, n - 1, k + 1);
    }
}

proof fn lemma_zeros_are_zero(data: Seq<u8>, pos: int, k: int)
    requires
        0 <= k,
    ensures
        zeros(data, pos, k) matches Some(z) ==> z >= k && bits(data, pos, z - k) == 0 && bit(
            data,
            pos + z - k,
        ) == 1,
    decreases 32 - k,
{
    if let Some(z) = zeros(data, pos, k) {
        numbers_join(data, pos, 0, 0);
        if bit(data, pos) != 1 {
            lemma_zeros_are_zero(data, pos + 1, k + 1);
            numbers_join(data, pos, 1, z - k - 1);
            let q = p2(z - k - 1);
            assert(0 * q == 0);
        }
    }
}

} // verus!
