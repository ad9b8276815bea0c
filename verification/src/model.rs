//! The mathematical model of RC4 that every contract of this crate speaks of.

use vstd::prelude::*;

verus! {

/// The cipher's state as a plain value: the table and the two cursors.
pub struct State {
    pub perm: Seq<u8>,
    pub i: u8,
    pub j: u8,
}

/// `s` holds each of the 256 byte values exactly once.
pub open spec fn is_permutation(s: Seq<u8>) -> bool {
    &&& s.len() == 256
    &&& forall|v: u8| #[trigger] s.contains(v)
    &&& forall|a: int, b: int| 0 <= a < b < 256 ==> s[a] != s[b]
}

/// The table in which every position holds its own index.
pub open spec fn identity() -> Seq<u8> {
    Seq::new(256, |p: int| p as u8)
}

/// `s` with the entries at `a` and `b` exchanged.
pub open spec fn swap(s: Seq<u8>, a: int, b: int) -> Seq<u8> {
    s.update(a, s[b]).update(b, s[a])
}

/// Addition of bytes, wrapping at 256.
pub open spec fn add8(a: u8, b: u8) -> u8 {
    ((a + b) % 256) as u8
}

/// The table and the scrambling cursor after the first `rounds` rounds of the
/// key schedule. Round `p` moves the cursor by the entry at `p` and the key
/// byte at `p` modulo the key's length, then exchanges the entries at `p` and
/// at the cursor.
pub open spec fn schedule(key: Seq<u8>, rounds: nat) -> (Seq<u8>, u8)
    decreases rounds,
{
    if rounds == 0 {
        (identity(), 0u8)
    } else {
        let p = rounds - 1;
        let (s, j) = schedule(key, p as nat);
        let j = add8(add8(j, s[p]), key[p % (key.len() as int)]);
        (swap(s, p, j as int), j)
    }
}

/// The state of a generator that was just built from `key`.
pub open spec fn initial_state(key: Seq<u8>) -> State {
    State { perm: schedule(key, 256).0, i: 0, j: 0 }
}

/// The state after one more byte was produced.
pub open spec fn step(st: State) -> State {
    let i = add8(st.i, 1);
    let j = add8(st.j, st.perm[i as int]);
    State { perm: swap(st.perm, i as int, j as int), i, j }
}

/// The byte that the step into `st` produced.
pub open spec fn output(st: State) -> u8 {
    st.perm[add8(st.perm[st.i as int], st.perm[st.j as int]) as int]
}

/// The state after `n` more bytes were produced.
pub open spec fn advance(st: State, n: nat) -> State
    decreases n,
{
    if n == 0 {
        st
    } else {
        step(advance(st, (n - 1) as nat))
    }
}

/// The next `n` bytes that a generator in state `st` produces.
pub open spec fn keystream(st: State, n: nat) -> Seq<u8> {
    Seq::new(n, |k: int| output(advance(st, (k + 1) as nat)))
}

/// `data` with its first `ks.len()` bytes XORed with `ks`, byte by byte; the
/// bytes behind them are kept.
pub open spec fn mask(data: Seq<u8>, ks: Seq<u8>) -> Seq<u8> {
    Seq::new(
        data.len(),
        |k: int|
            if k < ks.len() {
                data[k] ^ ks[k]
            } else {
                data[k]
            },
    )
}

/// The parts joined, first part first.
pub open spec fn concat(parts: Seq<Seq<u8>>) -> Seq<u8>
    decreases parts.len(),
{
    if parts.len() == 0 {
        Seq::empty()
    } else {
        concat(parts.drop_last()) + parts.last()
    }
}

/// What comes out when a generator in state `st` masks `parts` one after
/// the other, each with the keystream that the parts before it left over.
pub open spec fn mask_parts(st: State, parts: Seq<Seq<u8>>) -> Seq<u8>
    decreases parts.len(),
{
    if parts.len() == 0 {
        Seq::empty()
    } else {
        let before = parts.drop_last();
        let part = parts.last();
        mask_parts(st, before) + mask(
            part,
            keystream(advance(st, concat(before).len()), part.len()),
        )
    }
}

/// What `data` becomes when it is read through the cipher under `key`.
pub open spec fn cipher(key: Seq<u8>, data: Seq<u8>) -> Seq<u8> {
    mask(data, keystream(initial_state(key), data.len()))
}

} // verus!
