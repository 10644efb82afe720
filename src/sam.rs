//! SAM alignment files: only the reader's shell; records are not parsed.

use core::marker::PhantomData;
use vstd::prelude::*;

verus! {

/// A SAM reader over a buffered byte source.
pub struct Sam<R, T> {
    buf: R,
    p: PhantomData<T>,
}

impl<R, T> Sam<R, T> {
    /// The byte source.
    pub closed spec fn source(&self) -> R {
        self.buf
    }

    /// A reader over `buf`.
    pub fn new(buf: R) -> (r: Self)
        ensures
            r.source() == buf,
    {
        Sam { buf, p: PhantomData }
    }
}

} // verus!
