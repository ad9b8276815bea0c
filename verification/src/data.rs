//! The reader that masks what another reader delivers.

use vstd::prelude::*;
use crate::error::InvalidKey;
use crate::model::{State, advance, initial_state, is_permutation, keystream, mask};
use crate::raw::RC4RawStream;
use crate::reader::Reader;

verus! {

/// A reader over another reader: every byte that comes out of `data` is
/// XORed with the next keystream byte.
pub struct RC4DataStream<R> {
    raw: RC4RawStream,
    data: R,
}

impl<R: Reader> RC4DataStream<R> {
    /// The state of the keystream generator.
    pub closed spec fn raw(self) -> State {
        self.raw@
    }

    /// The reader underneath.
    pub closed spec fn data(self) -> R {
        self.data
    }

    /// Wraps `data` with a generator freshly built from `key`.
    pub fn new(key: &[u8], data: R) -> (r: Result<RC4DataStream<R>, InvalidKey>)
        ensures
            match r {
                Ok(s) => {
                    &&& key@.len() > 0
                    &&& s.raw() == initial_state(key@)
                    &&& is_permutation(s.raw().perm)
                    &&& s.data() == data
                },
                Err(e) => key@.len() == 0 && e == InvalidKey,
            },
    {
        match RC4RawStream::new(key) {
            Ok(raw) => Ok(RC4DataStream { raw, data }),
            Err(e) => Err(e),
        }
    }
}

impl<R: Reader> Reader for RC4DataStream<R> {
    type Error = R::Error;

    /// The reader underneath reads; where it delivers `n` bytes, these are
    /// masked with the next `n` keystream bytes; where it fails, its error
    /// is handed on and no keystream is used up.
    open spec fn reads(
        pre: Self,
        post: Self,
        before: Seq<u8>,
        after: Seq<u8>,
        res: Result<usize, R::Error>,
    ) -> bool {
        match res {
            Ok(n) => {
                &&& n <= before.len()
                &&& post.raw() == advance(pre.raw(), n as nat)
                &&& is_permutation(post.raw().perm)
                &&& exists|mid: Seq<u8>|
                    #[trigger] R::reads(pre.data(), post.data(), before, mid, res)
                    && after == mask(mid, keystream(pre.raw(), n as nat))
            },
            Err(_) => {
                &&& post.raw() == pre.raw()
                &&& R::reads(pre.data(), post.data(), before, after, res)
            },
        }
    }

    fn read(&mut self, buf: &mut [u8]) -> (res: Result<usize, R::Error>)
        ensures
            match res {
                Ok(n) => {
                    &&& final(self).raw() == advance(old(self).raw(), n as nat)
                    &&& is_permutation(final(self).raw().perm)
                    &&& exists|mid: Seq<u8>|
                        #[trigger] R::reads(old(self).data(), final(self).data(), old(buf)@, mid, res)
                            && final(buf)@ == mask(mid, keystream(old(self).raw(), n as nat))
                },
                Err(_) => {
                    &&& final(self).raw() == old(self).raw()
                    &&& R::reads(old(self).data(), final(self).data(), old(buf)@, final(buf)@, res)
                },
            },
    {
        let num: usize = match self.data.read(buf) {
            Err(e) => return Err(e),
            Ok(num) => num,
        };
        let ghost mid = buf@;
        self.raw.apply_keystream(buf, num);
        assert(R::reads(old(self).data(), self.data(), old(buf)@, mid, Ok(num)));
        Ok(num)
    }
}

} // verus!
