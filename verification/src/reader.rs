//! The one capability that the cipher asks of a source of bytes, and offers
//! in turn.

use vstd::prelude::*;
use std::convert::Infallible;
use crate::model::{advance, is_permutation, keystream};
use crate::raw::RC4RawStream;

verus! {

/// A source of bytes that is read into a caller's buffer.
///
/// `read` writes up to `buf.len()` bytes to the front of `buf` and returns
/// how many it wrote. `Ok(0)` says that the source has come to its end, which
/// is no error.
pub trait Reader: Sized {
    /// What a failed read reports.
    type Error;

    /// Whether one call of `read` may take the reader from `pre` to `post`,
    /// turn a buffer that holds `before` into one that holds `after`, and
    /// return `res`. A reader that says nothing of itself admits every
    /// outcome.
    open spec fn reads(
        pre: Self,
        post: Self,
        before: Seq<u8>,
        after: Seq<u8>,
        res: Result<usize, Self::Error>,
    ) -> bool {
        true
    }

    fn read(&mut self, buf: &mut [u8]) -> (res: Result<usize, Self::Error>)
        ensures
            final(buf)@.len() == old(buf)@.len(),
            res matches Ok(n) ==> n <= old(buf)@.len(),
            Self::reads(*old(self), *final(self), old(buf)@, final(buf)@, res),
    ;
}

impl Reader for RC4RawStream {
    type Error = Infallible;

    /// A generator never fails and never ends: it fills the whole buffer
    /// with its next keystream bytes.
    open spec fn reads(
        pre: Self,
        post: Self,
        before: Seq<u8>,
        after: Seq<u8>,
        res: Result<usize, Infallible>,
    ) -> bool {
        &&& res == Ok::<usize, Infallible>(before.len() as usize)
        &&& after == keystream(pre@, before.len())
        &&& post@ == advance(pre@, before.len())
        &&& is_permutation(post@.perm)
    }

    fn read(&mut self, buf: &mut [u8]) -> (res: Result<usize, Infallible>)
        ensures
            res == Ok::<usize, Infallible>(old(buf)@.len() as usize),
            final(buf)@ == keystream(old(self)@, old(buf)@.len()),
            final(self)@ == advance(old(self)@, old(buf)@.len()),
    {
        let blen: usize = buf.len();
        self.fill(buf);
        Ok(blen)
    }
}

} // verus!
