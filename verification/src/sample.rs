//! Sample types, and buffers whose allocation may fail.
use vstd::prelude::*;
use crate::error::DecodeError;

verus! {

/// A sample of a plane: 8 or 16 bits.
pub trait Sample: Copy + Sized {
    /// Size in bytes.
    spec fn size() -> int;

    spec fn of_zero() -> Self;

    fn byte_size() -> (r: usize)
        ensures
            r == Self::size(),
    ;

    fn zero() -> (r: Self)
        ensures
            r == Self::of_zero(),
    ;
}

impl Sample for u8 {
    open spec fn size() -> int {
        1
    }

    open spec fn of_zero() -> Self {
        0
    }

    fn byte_size() -> usize {
        1
    }

    fn zero() -> Self {
        0
    }
}

impl Sample for u16 {
    open spec fn size() -> int {
        2
    }

    open spec fn of_zero() -> Self {
        0
    }

    fn byte_size() -> usize {
        2
    }

    fn zero() -> Self {
        0
    }
}

/// The error for a buffer of `len` samples that there is no memory for. The number of bytes
/// saturates.
pub open spec fn no_memory<T: Sample>(what: &'static str, len: int) -> DecodeError {
    DecodeError::AllocationFailed {
        what,
        bytes: if len * T::size() > usize::MAX {
            usize::MAX
        } else {
            (len * T::size()) as usize
        },
    }
}

/// Asks for room for `n` more samples, by `Vec::try_reserve_exact`. The contents of the vector stay
/// as they are. Whether there is room rests on the machine, so nothing is said of the result.
#[verifier::external_body]
fn reserve_exact<T: Sample>(v: &mut Vec<T>, n: usize) -> (r: bool)
    ensures
        final(v)@ == old(v)@,
{
    v.try_reserve_exact(n).is_ok()
}

/// The buffer of `len` equal samples, or the error if there was no room for it.
pub fn filled<T: Sample>(
    reserved: bool,
    room: Vec<T>,
    value: T,
    len: usize,
    what: &'static str,
) -> (r: Result<Vec<T>, DecodeError>)
    requires
        room@.len() == 0,
    ensures
        reserved ==> r is Ok && r->Ok_0@ == Seq::new(len as nat, |i: int| value),
        !reserved ==> r == Err::<Vec<T>, DecodeError>(no_memory::<T>(what, len as int)),
{
    if !reserved {
        let size: usize = T::byte_size();
        let bytes: usize = match len.checked_mul(size) {
            Some(b) => b,
            None => usize::MAX,
        };
        return Err(DecodeError::AllocationFailed { what, bytes });
    }
    let mut out: Vec<T> = room;
    let mut i: usize = 0;
    while i < len
        invariant
            i <= len,
            out@ == Seq::new(i as nat, |k: int| value),
        decreases len - i,
    {
        out.push(value);
        i = i + 1;
        assert(out@ =~= Seq::new(i as nat, |k: int| value));
    }
    Ok(out)
}

/// A buffer of `len` equal samples, or an error if there is no memory for it.
pub fn try_vec<T: Sample>(value: T, len: usize, what: &'static str) -> (r: Result<
    Vec<T>,
    DecodeError,
>)
    ensures
        match r {
            Ok(v) => v@ == Seq::new(len as nat, |i: int| value),
            Err(e) => e == no_memory::<T>(what, len as int),
        },
{
    let mut room: Vec<T> = Vec::new();
    let reserved: bool = reserve_exact(&mut room, len);
    filled(reserved, room, value, len, what)
}

/// Samples of 8 bits take one byte, those of 16 bits two, and blank ones are zero. A failed request
/// for samples names its bytes, as far as they can be counted.
pub proof fn requests_are_counted_in_bytes(what: &'static str, len: int)
    requires
        0 <= len,
    ensures
        2 * len <= usize::MAX ==> no_memory::<u8>(what, len) == (DecodeError::AllocationFailed {
            what,
            bytes: len as usize,
        }),
        2 * len <= usize::MAX ==> no_memory::<u16>(what, len) == (DecodeError::AllocationFailed {
            what,
            bytes: (2 * len) as usize,
        }),
        2 * len > usize::MAX ==> no_memory::<u16>(what, len) == (DecodeError::AllocationFailed {
            what,
            bytes: usize::MAX,
        }),
        <u8 as Sample>::of_zero() == 0,
        <u16 as Sample>::of_zero() == 0,
{
}

} // verus!
