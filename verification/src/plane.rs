//! A plane of samples that owns its buffer.
use vstd::prelude::*;
use crate::sample::Sample;

verus! {

/// Samples of a picture under reconstruction.
#[derive(Debug)]
pub struct Plane<T> {
    pub samples: Vec<T>,
}

impl<T: Sample> View for Plane<T> {
    type V = Seq<T>;

    open spec fn view(&self) -> Seq<T> {
        self.samples@
    }
}

impl<T: Sample> Plane<T> {
    /// A plane made of a buffer.
    pub fn owned(v: Vec<T>) -> (r: Self)
        ensures
            r@ == v@,
    {
        Plane { samples: v }
    }

    /// Number of samples.
    pub fn len(&self) -> (r: usize)
        ensures
            r == self@.len(),
    {
        self.samples.len()
    }

    /// Hands the buffer out and leaves an empty plane.
    pub fn take_vec(&mut self) -> (r: Vec<T>)
        ensures
            r@ == old(self)@,
            final(self)@ == Seq::<T>::empty(),
    {
        let mut out: Vec<T> = Vec::new();
        std::mem::swap(&mut out, &mut self.samples);
        out
    }

    /// A copy of the samples.
    pub fn to_vec_clone(&self) -> (r: Vec<T>)
        ensures
            r@ == self@,
    {
        let mut out: Vec<T> = Vec::new();
        let mut i: usize = 0;
        while i < self.samples.len()
            invariant
                i <= self@.len(),
                out@ == self@.take(i as int),
            decreases self@.len() - i,
        {
            out.push(self.samples[i]);
            i = i + 1;
            assert(out@ =~= self@.take(i as int));
        }
        assert(out@ =~= self@);
        out
    }

    /// The samples.
    pub fn as_slice(&self) -> (r: &[T])
        ensures
            r@ == self@,
    {
        self.samples.as_slice()
    }

    /// Changes a sample.
    pub fn set(&mut self, i: usize, v: T)
        requires
            i < old(self)@.len(),
        ensures
            final(self)@ == old(self)@.update(i as int, v),
    {
        self.samples.set(i, v);
    }
}

impl<T: Sample> Default for Plane<T> {
    fn default() -> (r: Self)
        ensures
            r@ == Seq::<T>::empty(),
    {
        Plane { samples: Vec::new() }
    }
}

} // verus!
