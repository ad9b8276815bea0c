//! The keystream generator.

use vstd::prelude::*;
use crate::error::InvalidKey;
use crate::laws::{lemma_schedule_is_permutation, lemma_swap_keeps_permutation};
use crate::model::{
    State, advance, identity, initial_state, is_permutation, keystream, mask, output, schedule,
    step, swap,
};

verus! {

/// An RC4 keystream generator: the table and its two cursors.
pub struct RC4RawStream {
    i: u8,
    j: u8,
    state: [u8; 256],
}

impl View for RC4RawStream {
    type V = State;

    closed spec fn view(&self) -> State {
        State { perm: self.state@, i: self.i, j: self.j }
    }
}

/// Exchanges the entries at `a` and `b`.
fn swap_entries(table: &mut [u8; 256], a: usize, b: usize)
    requires
        a < 256,
        b < 256,
    ensures
        final(table)@ == swap(old(table)@, a as int, b as int),
    no_unwind
{
    let x: u8 = table[a];
    let y: u8 = table[b];
    table[a] = y;
    table[b] = x;
}

impl RC4RawStream {
    #[verifier::type_invariant]
    spec fn inv(self) -> bool {
        is_permutation(self.state@)
    }

    /// Builds a generator by running the key schedule over `key`.
    pub fn new(key: &[u8]) -> (r: Result<RC4RawStream, InvalidKey>)
        ensures
            match r {
                Ok(g) => key@.len() > 0 && g@ == initial_state(key@) && is_permutation(g@.perm),
                Err(e) => key@.len() == 0 && e == InvalidKey,
            },
    {
        let klen: usize = key.len();
        if klen == 0 {
            return Err(InvalidKey);
        }
        let mut state: [u8; 256] = [0u8; 256];
        let mut p: usize = 0;
        while p < 256
            invariant
                p <= 256,
                forall|k: int| 0 <= k < p ==> state@[k] == k as u8,
            decreases 256 - p,
        {
            state[p] = p as u8;
            p += 1;
        }
        assert(state@ =~= identity());
        let mut j: u8 = 0;
        let mut p: usize = 0;
        while p < 256
            invariant
                p <= 256,
                klen == key@.len(),
                klen > 0,
                state@ == schedule(key@, p as nat).0,
                j == schedule(key@, p as nat).1,
            decreases 256 - p,
        {
            let ghost before = schedule(key@, p as nat);
            j = j.wrapping_add(state[p]).wrapping_add(key[p % klen]);
            swap_entries(&mut state, p, j as usize);
            p += 1;
            assert(schedule(key@, p as nat) == (swap(before.0, p - 1, j as int), j));
        }
        proof {
            lemma_schedule_is_permutation(key@, 256);
        }
        Ok(RC4RawStream { i: 0, j: 0, state })
    }

    /// Produces the next keystream byte.
    pub fn next_byte(&mut self) -> (b: u8)
        ensures
            final(self)@ == step(old(self)@),
            b == output(final(self)@),
            is_permutation(final(self)@.perm),
    {
        proof {
            use_type_invariant(&*self);
        }
        self.i = self.i.wrapping_add(1);
        self.j = self.j.wrapping_add(self.state[self.i as usize]);
        proof {
            lemma_swap_keeps_permutation(self.state@, self.i as int, self.j as int);
        }
        swap_entries(&mut self.state, self.i as usize, self.j as usize);
        let k: u8 = self.state[self.i as usize].wrapping_add(self.state[self.j as usize]);
        self.state[k as usize]
    }

    /// Fills `buf` with the next keystream bytes, in order.
    pub fn fill(&mut self, buf: &mut [u8])
        ensures
            final(buf)@ == keystream(old(self)@, old(buf)@.len()),
            final(self)@ == advance(old(self)@, old(buf)@.len()),
            is_permutation(final(self)@.perm),
    {
        proof {
            use_type_invariant(&*self);
        }
        let blen: usize = buf.len();
        let mut b: usize = 0;
        while b < blen
            invariant
                b <= blen,
                blen == buf@.len(),
                buf@.len() == old(buf)@.len(),
                self@ == advance(old(self)@, b as nat),
                is_permutation(self@.perm),
                forall|k: int| 0 <= k < b ==> buf@[k] == keystream(old(self)@, blen as nat)[k],
            decreases blen - b,
        {
            let byte: u8 = self.next_byte();
            buf[b] = byte;
            b += 1;
        }
        assert(buf@ =~= keystream(old(self)@, blen as nat));
    }

    /// XORs the first `n` bytes of `buf` with the next `n` keystream bytes.
    pub fn apply_keystream(&mut self, buf: &mut [u8], n: usize)
        requires
            n <= old(buf)@.len(),
        ensures
            final(buf)@ == mask(old(buf)@, keystream(old(self)@, n as nat)),
            final(self)@ == advance(old(self)@, n as nat),
            is_permutation(final(self)@.perm),
    {
        proof {
            use_type_invariant(&*self);
        }
        let mut b: usize = 0;
        while b < n
            invariant
                b <= n,
                n <= buf@.len(),
                buf@.len() == old(buf)@.len(),
                self@ == advance(old(self)@, b as nat),
                is_permutation(self@.perm),
                forall|k: int|
                    0 <= k < b ==> buf@[k] == old(buf)@[k] ^ keystream(old(self)@, n as nat)[k],
                forall|k: int| b <= k < buf@.len() ==> buf@[k] == old(buf)@[k],
            decreases n - b,
        {
            let byte: u8 = self.next_byte();
            buf[b] = buf[b] ^ byte;
            b += 1;
        }
        assert(buf@ =~= mask(old(buf)@, keystream(old(self)@, n as nat)));
    }
}

} // verus!
