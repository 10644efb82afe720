//! A FASTQ stream over a buffered byte source.
//!
//! The source is read from outside the verified code; each record is then
//! checked by [`crate::fastq::build_record`].

use core::marker::PhantomData;
use vstd::prelude::*;

verus! {

/// A FASTQ stream: the byte source it reads from, and the type that records'
/// sequences are meant to decode into.
pub struct Fastq<R, T> {
    buf: R,
    p: PhantomData<T>,
}

impl<R, T> Fastq<R, T> {
    /// The byte source.
    pub closed spec fn source(&self) -> R {
        self.buf
    }

    /// A stream over `buf`.
    pub fn new(buf: R) -> (r: Self)
        ensures
            r.source() == buf,
    {
        Fastq { buf, p: PhantomData }
    }

    /// The byte source, to read the next lines from.
    pub fn source_mut(&mut self) -> (r: &mut R)
        ensures
            *r == old(self).source(),
            final(self).source() == *final(r),
    {
        &mut self.buf
    }
}

} // verus!
