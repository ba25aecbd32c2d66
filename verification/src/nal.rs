//! NAL units of an image item, each behind its length.
use vstd::prelude::*;
use crate::error::DecodeError;

verus! {

/// Value of big-endian bytes.
pub open spec fn be_value(s: Seq<u8>) -> int
    decreases s.len(),
{
    if s.len() == 0 {
        0
    } else {
        256 * be_value(s.drop_last()) + s.last()
    }
}

/// Size of the length fields that a decoder configuration record announces.
pub open spec fn length_size(hvcc: Seq<u8>) -> Result<usize, DecodeError> {
    if hvcc.len() <= 21 {
        Err(DecodeError::ParamSet("hvcC too short for NAL length size"))
    } else {
        Ok((hvcc[21] % 4 + 1) as usize)
    }
}

/// Size of the length fields: the low two bits of byte 21 plus one.
pub fn hvcc_nal_length_size(hvcc: &[u8]) -> (r: Result<usize, DecodeError>)
    ensures
        r == length_size(hvcc@),
        r matches Ok(n) ==> 1 <= n <= 4,
{
    if hvcc.len() <= 21 {
        return Err(DecodeError::ParamSet("hvcC too short for NAL length size"));
    }
    Ok((hvcc[21] % 4) as usize + 1)
}

/// A length field of `n` bytes at `pos`.
pub open spec fn length_field(sample: Seq<u8>, pos: int, n: int) -> Result<int, DecodeError> {
    if pos + n > usize::MAX {
        Err(DecodeError::Bitstream("NAL length offset overflows usize"))
    } else if pos + n > sample.len() {
        Err(DecodeError::Bitstream("truncated HEIF NAL length prefix"))
    } else {
        Ok(be_value(sample.subrange(pos, pos + n)))
    }
}

proof fn lemma_be_value_bound(s: Seq<u8>)
    ensures
        0 <= be_value(s),
        s.len() == 0 ==> be_value(s) < 1,
        s.len() == 1 ==> be_value(s) < 256,
        s.len() == 2 ==> be_value(s) < 65536,
        s.len() == 3 ==> be_value(s) < 16777216,
        s.len() == 4 ==> be_value(s) < 4294967296,
    decreases s.len(),
{
    if s.len() > 0 {
        lemma_be_value_bound(s.drop_last());
    }
}

/// Reads a length field and moves behind it.
pub fn read_length_prefixed_nal_size(sample: &[u8], pos: &mut usize, length_size: usize) -> (r: Result<
    usize,
    DecodeError,
>)
    requires
        length_size <= 4,
    ensures
        match length_field(sample@, *old(pos) as int, length_size as int) {
            Ok(v) => r matches Ok(n) && n == v && *final(pos) == *old(pos) + length_size,
            Err(e) => r == Err::<usize, DecodeError>(e) && *final(pos) == *old(pos),
        },
{
    let start: usize = *pos;
    let end: usize = match start.checked_add(length_size) {
        Some(e) => e,
        None => return Err(DecodeError::Bitstream("NAL length offset overflows usize")),
    };
    if end > sample.len() {
        return Err(DecodeError::Bitstream("truncated HEIF NAL length prefix"));
    }
    *pos = end;
    let mut size: usize = 0;
    let mut i: usize = start;
    assert(sample@.subrange(start as int, start as int) =~= Seq::<u8>::empty());
    while i < end
        invariant
            start <= i <= end <= sample@.len(),
            end - start <= 4,
            size == be_value(sample@.subrange(start as int, i as int)),
        decreases end - i,
    {
        proof {
            let s = sample@.subrange(start as int, i as int);
            let t = sample@.subrange(start as int, i + 1);
            assert(t.drop_last() =~= s);
            lemma_be_value_bound(s);
            lemma_be_value_bound(t);
        }
        size = size * 256 + sample[i] as usize;
        i = i + 1;
    }
    Ok(size)
}

/// The NAL unit behind the length field at `pos`: where it starts and ends.
pub open spec fn nal_at(sample: Seq<u8>, pos: int, length_size: int) -> Result<
    (int, int),
    DecodeError,
> {
    match length_field(sample, pos, length_size) {
        Err(e) => Err(e),
        Ok(n) => if n < 2 {
            Err(DecodeError::Bitstream("HEIF sample contains an undersized NAL unit"))
        } else if pos + length_size + n > usize::MAX {
            Err(DecodeError::Bitstream("NAL payload offset overflows usize"))
        } else if pos + length_size + n > sample.len() {
            Err(DecodeError::Bitstream("truncated HEIF NAL payload"))
        } else {
            Ok((pos + length_size, pos + length_size + n))
        },
    }
}

/// Finds the next NAL unit: where it starts and ends.
pub fn next_nal(sample: &[u8], pos: usize, length_size: usize) -> (r: Result<
    (usize, usize),
    DecodeError,
>)
    requires
        length_size <= 4,
    ensures
        match nal_at(sample@, pos as int, length_size as int) {
            Ok((s, e)) => r matches Ok(t) && t.0 == s && t.1 == e,
            Err(e) => r == Err::<(usize, usize), DecodeError>(e),
        },
        r matches Ok(t) ==> pos <= t.0 && t.0 + 2 <= t.1 <= sample@.len(),
{
    let mut start: usize = pos;
    let n: usize = match read_length_prefixed_nal_size(sample, &mut start, length_size) {
        Ok(n) => n,
        Err(e) => return Err(e),
    };
    if n < 2 {
        return Err(DecodeError::Bitstream("HEIF sample contains an undersized NAL unit"));
    }
    let end: usize = match start.checked_add(n) {
        Some(e) => e,
        None => return Err(DecodeError::Bitstream("NAL payload offset overflows usize")),
    };
    if end > sample.len() {
        return Err(DecodeError::Bitstream("truncated HEIF NAL payload"));
    }
    Ok((start, end))
}

/// Type of a NAL unit, from its first byte.
pub open spec fn nal_type(first: u8) -> u8 {
    ((first as int / 2) % 64) as u8
}

/// Type of a NAL unit, from its first byte.
pub fn nal_type_of(first: u8) -> (r: u8)
    ensures
        r == nal_type(first),
{
    (first / 2) % 64
}

/// NAL units follow each other: each starts behind the length field at the end of the one before,
/// so the scan of a sample ends.
pub proof fn nal_units_advance(sample: Seq<u8>, pos: int, length_size: int)
    requires
        0 <= pos,
        1 <= length_size <= 4,
    ensures
        nal_at(sample, pos, length_size) matches Ok((s, e)) ==> s == pos + length_size && s + 2 <= e
            <= sample.len(),
{
}

/// Length fields have the most significant byte first.
pub proof fn length_fields_are_big_endian(s: Seq<u8>)
    ensures
        s.len() == 1 ==> be_value(s) == s[0],
        s.len() == 2 ==> be_value(s) == 256 * s[0] + s[1],
        s.len() == 3 ==> be_value(s) == 65536 * s[0] + 256 * s[1] + s[2],
        s.len() == 4 ==> be_value(s) == 16777216 * s[0] + 65536 * s[1] + 256 * s[2] + s[3],
{
    reveal_with_fuel(be_value, 5);
}

/// The lower two bits of byte 21 of the configuration are one less than the size of length fields.
pub proof fn length_size_is_in_the_configuration(hvcc: Seq<u8>, upper: int, lower: int)
    requires
        hvcc.len() > 21,
        hvcc[21] == 4 * upper + lower,
        0 <= lower < 4,
    ensures
        length_size(hvcc) == Ok::<usize, DecodeError>((lower + 1) as usize),
{
}

/// The first byte of a unit holds a zero bit, its type in six bits, and the first bit of its layer.
pub proof fn unit_type_is_in_the_first_byte(first: u8, t: int, zero: int, layer: int)
    requires
        first == 128 * zero + 2 * t + layer,
        0 <= t < 64,
        0 <= layer <= 1,
    ensures
        nal_type(first) == t,
{
}

/// A unit of `n` bytes follows its length field, and must be there whole; units of less than two
/// bytes have no header.
pub proof fn units_follow_their_length(sample: Seq<u8>, pos: int, size: int, n: int)
    requires
        0 <= pos,
        0 <= size,
        sample.len() <= usize::MAX,
        pos + size <= sample.len(),
        n == be_value(sample.subrange(pos, pos + size)),
    ensures
        n >= 2 && pos + size + n <= sample.len() ==> nal_at(sample, pos, size) == Ok::<
            (int, int),
            DecodeError,
        >((pos + size, pos + size + n)),
        n < 2 || pos + size + n > sample.len() ==> nal_at(sample, pos, size) is Err,
{
}

/// A sample that ends in a length field or in a unit is truncated, and one with a unit that is too short
/// says so.
pub proof fn broken_samples_say_what_is_wrong(sample: Seq<u8>, pos: int, size: int)
    requires
        0 <= pos,
        0 <= size,
        pos + size <= usize::MAX,
    ensures
        pos + size > sample.len() ==> nal_at(sample, pos, size) == Err::<(int, int), DecodeError>(
            DecodeError::Bitstream("truncated HEIF NAL length prefix"),
        ),
        pos + size <= sample.len() ==> ({
            let n = be_value(sample.subrange(pos, pos + size));
            &&& n < 2 ==> nal_at(sample, pos, size) == Err::<(int, int), DecodeError>(
                DecodeError::Bitstream("HEIF sample contains an undersized NAL unit"),
            )
            &&& n >= 2 && sample.len() < pos + size + n <= usize::MAX ==> nal_at(sample, pos, size)
                == Err::<(int, int), DecodeError>(
                DecodeError::Bitstream("truncated HEIF NAL payload"),
            )
        }),
        length_size(sample) is Err <==> sample.len() <= 21,
{
}

} // verus!
