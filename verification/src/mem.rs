//! A reader over bytes held in memory.

use vstd::prelude::*;
use std::convert::Infallible;
use crate::reader::Reader;

verus! {

/// Bytes in memory, read from front to back.
pub struct MemReader {
    buf: Vec<u8>,
    pos: usize,
}

impl View for MemReader {
    type V = Seq<u8>;

    /// The bytes that are still to be read.
    closed spec fn view(&self) -> Seq<u8> {
        self.buf@.skip(self.pos as int)
    }
}

impl MemReader {
    #[verifier::type_invariant]
    spec fn inv(self) -> bool {
        self.pos <= self.buf@.len()
    }

    /// A reader that delivers `buf` from its first byte on.
    pub fn new(buf: Vec<u8>) -> (r: MemReader)
        ensures
            r@ == buf@,
    {
        MemReader { buf, pos: 0 }
    }
}

impl Reader for MemReader {
    type Error = Infallible;

    /// As many of the remaining bytes as the buffer takes move to its front;
    /// what lies behind them in the buffer is kept.
    open spec fn reads(
        pre: Self,
        post: Self,
        before: Seq<u8>,
        after: Seq<u8>,
        res: Result<usize, Infallible>,
    ) -> bool {
        let n = if before.len() <= pre@.len() {
            before.len()
        } else {
            pre@.len()
        };
        &&& res == Ok::<usize, Infallible>(n as usize)
        &&& after == pre@.take(n as int) + before.skip(n as int)
        &&& post@ == pre@.skip(n as int)
    }

    fn read(&mut self, buf: &mut [u8]) -> (res: Result<usize, Infallible>) {
        proof {
            use_type_invariant(&*self);
        }
        let left: usize = self.buf.len() - self.pos;
        let n: usize = if buf.len() <= left {
            buf.len()
        } else {
            left
        };
        let mut k: usize = 0;
        while k < n
            invariant
                k <= n,
                n <= buf@.len(),
                buf@.len() == old(buf)@.len(),
                self.pos + n <= self.buf@.len() <= usize::MAX,
                *self == *old(self),
                forall|m: int| 0 <= m < k ==> buf@[m] == self.buf@[self.pos + m],
                forall|m: int| k <= m < buf@.len() ==> buf@[m] == old(buf)@[m],
            decreases n - k,
        {
            buf[k] = self.buf[self.pos + k];
            k += 1;
        }
        self.pos = self.pos + n;
        assert(buf@ =~= old(self)@.take(n as int) + old(buf)@.skip(n as int));
        assert(self@ =~= old(self)@.skip(n as int));
        Ok(n)
    }
}

} // verus!
